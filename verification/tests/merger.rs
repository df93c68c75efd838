use paradox_mod_translator::error::{PostprocessError, TranslationError};
use paradox_mod_translator::postprocess::{
    merge_slices, reconstruct_yaml_file, with_bom, TranslationSlice,
};

fn slice(content: &str, start_line: usize, end_line: usize) -> TranslationSlice {
    TranslationSlice { content: content.to_string(), start_line, end_line }
}

#[test]
fn merger_indents_every_line_by_four_spaces() {
    let merged = merge_slices(vec![slice("a: \"1\"\n  b: \"2\"", 1, 2)]).unwrap();
    assert_eq!(merged, "    a: \"1\"\n      b: \"2\"");
}

#[test]
fn merger_orders_slices_by_their_first_line() {
    let merged =
        merge_slices(vec![slice("c\nd", 3, 4), slice("e", 5, 5), slice("a\r\nb\n", 1, 2)]).unwrap();
    assert_eq!(merged, "    a\n    b\n    c\n    d\n    e");
}

#[test]
fn merger_refuses_a_gap() {
    let result = merge_slices(vec![slice("a", 1, 10), slice("b", 12, 20)]);
    match result {
        Err(TranslationError::Postprocess(PostprocessError::MergeFailed(message))) => {
            assert_eq!(message, "Slices are not contiguous: 12 != 10 + 1");
        }
        other => panic!("unexpected result: {:?}", other),
    }
}

#[test]
fn merger_refuses_an_overlap() {
    let result = merge_slices(vec![slice("b", 5, 9), slice("a", 1, 5)]);
    match result {
        Err(TranslationError::Postprocess(PostprocessError::MergeFailed(message))) => {
            assert_eq!(message, "Slices are not contiguous: 5 != 5 + 1");
        }
        other => panic!("unexpected result: {:?}", other),
    }
}

#[test]
fn merger_reports_the_first_gap_in_line_order() {
    let result = merge_slices(vec![slice("c", 9, 9), slice("b", 4, 5), slice("a", 1, 2)]);
    match result {
        Err(TranslationError::Postprocess(PostprocessError::MergeFailed(message))) => {
            assert_eq!(message, "Slices are not contiguous: 4 != 2 + 1");
        }
        other => panic!("unexpected result: {:?}", other),
    }
}

#[test]
fn merger_refuses_a_slice_behind_the_largest_line_number() {
    let result = merge_slices(vec![slice("a", 1, usize::MAX), slice("b", 2, 3)]);
    match result {
        Err(TranslationError::Postprocess(PostprocessError::MergeFailed(message))) => {
            assert_eq!(message, format!("Slices are not contiguous: 2 != {} + 1", usize::MAX));
        }
        other => panic!("unexpected result: {:?}", other),
    }
}

#[test]
fn merger_refuses_no_slices() {
    assert!(matches!(
        merge_slices(vec![]),
        Err(TranslationError::Postprocess(PostprocessError::InconsistentSlices))
    ));
    assert!(matches!(
        reconstruct_yaml_file(vec![], "french"),
        Err(TranslationError::Postprocess(PostprocessError::InconsistentSlices))
    ));
}

#[test]
fn merger_accepts_a_single_slice_anywhere() {
    assert_eq!(merge_slices(vec![slice("x", 7, 3)]).unwrap(), "    x");
    assert_eq!(merge_slices(vec![slice("", 1, 1)]).unwrap(), "");
}

#[test]
fn reconstruction_puts_the_header_first() {
    let whole = reconstruct_yaml_file(vec![slice("b", 2, 2), slice("a", 1, 1)], "simp_chinese");
    assert_eq!(whole.unwrap(), "l_simp_chinese:\n    a\n    b");
}

#[test]
fn reconstruction_passes_merge_errors_on() {
    assert!(matches!(
        reconstruct_yaml_file(vec![slice("a", 1, 1), slice("b", 3, 3)], "french"),
        Err(TranslationError::Postprocess(PostprocessError::MergeFailed(_)))
    ));
}

#[test]
fn written_text_begins_with_one_byte_order_mark() {
    assert_eq!(with_bom("l_french:"), "\u{feff}l_french:");
    assert_eq!(with_bom("\u{feff}l_french:"), "\u{feff}l_french:");
    assert_eq!(with_bom(""), "\u{feff}");
}
