use paradox_mod_translator::utils::{
    data_file_missing_message, first_existing, glossary_candidates, has_yaml_extension, strip_bom,
};

#[test]
fn documents_have_the_extension_yml_or_yaml() {
    assert!(has_yaml_extension("events_l_english.yml"));
    assert!(has_yaml_extension("events.yaml"));
    assert!(has_yaml_extension("a.b.yml"));
    assert!(has_yaml_extension("..yml"));
    assert!(!has_yaml_extension("events.txt"));
    assert!(!has_yaml_extension("events.YML"));
    assert!(!has_yaml_extension("events.yml.bak"));
    assert!(!has_yaml_extension("yml"));
    assert!(!has_yaml_extension(".yml"));
    assert!(!has_yaml_extension("events."));
    assert!(!has_yaml_extension(""));
}

#[test]
fn extension_agrees_with_std() {
    for name in ["a.yml", ".yaml", "a.b.yaml", "yaml", "a.yml.", "x.yaml.yml", "a..yml"] {
        let expected = match std::path::Path::new(name).extension() {
            Some(ext) => ext == "yml" || ext == "yaml",
            None => false,
        };
        assert_eq!(has_yaml_extension(name), expected);
    }
}

#[test]
fn read_text_loses_its_byte_order_mark() {
    assert_eq!(strip_bom("\u{feff}l_english:"), "l_english:");
    assert_eq!(strip_bom("l_english:"), "l_english:");
    assert_eq!(strip_bom("\u{feff}\u{feff}x"), "\u{feff}x");
    assert_eq!(strip_bom(""), "");
}

#[test]
fn glossaries_of_the_user_come_first() {
    assert_eq!(
        glossary_candidates("stellaris"),
        vec!["glossary_custom/stellaris.json", "glossary/stellaris.json"]
    );
}

#[test]
fn first_candidate_that_exists_is_chosen() {
    assert_eq!(first_existing(&vec![false, true, true]), Some(1));
    assert_eq!(first_existing(&vec![true, false]), Some(0));
    assert_eq!(first_existing(&vec![false, false]), None);
    assert_eq!(first_existing(&vec![]), None);
}

#[test]
fn missing_data_file_message_lists_the_places() {
    assert_eq!(
        data_file_missing_message("prompts/p.txt", "/home/u/.local/share/pmt/data"),
        "Data file not found: 'prompts/p.txt'. Searched in:\n1. ./data/prompts/p.txt\n2. /home/u/.local/share/pmt/data/prompts/p.txt"
    );
}
