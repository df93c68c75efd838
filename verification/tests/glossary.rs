use paradox_mod_translator::error::{TranslateError, TranslationError};
use paradox_mod_translator::translate::{Glossary, GlossaryEntry};

fn entry(source: &str, target: &str) -> GlossaryEntry {
    GlossaryEntry { source: source.to_string(), target: target.to_string(), force: false }
}

fn glossary(pairs: &[(&str, &str)]) -> Glossary {
    let mut g = Glossary::new();
    for (source, target) in pairs {
        g.insert(entry(source, target));
    }
    g
}

fn strings(items: &[&str]) -> Vec<String> {
    items.iter().map(|s| s.to_string()).collect()
}

#[test]
fn new_glossary_is_empty() {
    assert_eq!(Glossary::new().len(), 0);
    assert!(Glossary::new().is_empty());
    assert!(Glossary::default().is_empty());
}

#[test]
fn glossary_holds_each_source_term_once() {
    let mut g = glossary(&[("Empire", "帝国"), ("Fleet", "舰队")]);
    assert_eq!(g.len(), 2);
    assert!(!g.is_empty());
    g.insert(entry("Empire", "帝國"));
    assert_eq!(g.len(), 2);
    assert_eq!(g.to_csv("en", "zh", &strings(&["Empire"])), "en,zh\nEmpire,帝國");
}

#[test]
fn glossary_finds_terms_as_substrings() {
    let g = glossary(&[("Fleet", "舰队"), ("art", "艺术"), ("Empire", "帝国"), ("star", "星")]);
    let found = g.find_terms_in_text("The Empire held a party for the Fleet", "english");
    assert_eq!(found, vec!["Fleet", "art", "Empire"]);
    assert!(g.find_terms_in_text("nothing", "english").is_empty());
}

#[test]
fn glossary_finds_the_empty_term_everywhere() {
    let g = glossary(&[("", "x")]);
    assert_eq!(g.find_terms_in_text("", "english"), vec![""]);
}

#[test]
fn glossary_table_has_a_header_and_a_row_for_each_known_term() {
    let g = glossary(&[("Empire", "帝国"), ("Fleet", "舰队")]);
    let csv = g.to_csv("english", "simp_chinese", &strings(&["Fleet", "Unknown", "Empire"]));
    assert_eq!(csv, "english,simp_chinese\nFleet,舰队\nEmpire,帝国");
}

#[test]
fn glossary_table_without_known_terms_is_its_header() {
    let g = glossary(&[("Empire", "帝国")]);
    assert_eq!(g.to_csv("english", "french", &strings(&["Unknown"])), "english,french");
    assert_eq!(g.to_csv("english", "french", &strings(&[])), "english,french");
}

#[test]
fn glossary_replaces_terms_entry_after_entry() {
    let g = glossary(&[("Empire", "Reich"), ("Reich", "Imperium"), ("Fleet", "Flotte")]);
    assert_eq!(g.apply("Empire Fleet Empire"), "Imperium Flotte Imperium");
    assert_eq!(Glossary::new().apply("Empire"), "Empire");
}

#[test]
fn merged_glossaries_let_the_last_one_win() {
    let first = glossary(&[("Empire", "old"), ("Fleet", "舰队")]);
    let second = glossary(&[("Star", "星"), ("Empire", "new")]);
    let all = Glossary::merge_glossaries(&vec![first, second]);
    assert_eq!(all.len(), 3);
    assert_eq!(
        all.to_csv("a", "b", &strings(&["Empire", "Fleet", "Star"])),
        "a,b\nEmpire,new\nFleet,舰队\nStar,星"
    );
    assert_eq!(all.find_terms_in_text("Star Fleet Empire", "a"), vec!["Empire", "Fleet", "Star"]);
    assert!(Glossary::merge_glossaries(&vec![]).is_empty());
}

#[test]
fn extended_glossary_keeps_its_order() {
    let mut g = glossary(&[("b", "1"), ("a", "2")]);
    g.extend(&glossary(&[("c", "3"), ("b", "4")]));
    assert_eq!(g.find_terms_in_text("abc", "x"), vec!["b", "a", "c"]);
    assert_eq!(g.apply("abc"), "243");
}

#[test]
fn cloned_glossary_is_the_same() {
    let g = glossary(&[("b", "1"), ("a", "2")]);
    let copy = g.clone();
    assert_eq!(copy.len(), 2);
    assert_eq!(copy.apply("ab"), "21");
}

#[test]
fn glossary_is_read_from_a_json_object() {
    let g = Glossary::from_json_str("{\"Fleet\": \"舰队\", \"Empire\": \"帝国\", \"count\": 5}")
        .unwrap();
    assert_eq!(g.len(), 2);
    assert_eq!(g.to_csv("en", "zh", &strings(&["Empire", "Fleet", "count"])), "en,zh\nEmpire,帝国\nFleet,舰队");
}

#[test]
fn glossary_from_json_takes_the_last_of_repeated_names() {
    let g = Glossary::from_json_str("{\"a\": \"1\", \"a\": \"2\"}").unwrap();
    assert_eq!(g.len(), 1);
    assert_eq!(g.apply("a"), "2");
}

#[test]
fn glossary_from_other_json_is_empty() {
    assert!(Glossary::from_json_str("[\"a\", \"b\"]").unwrap().is_empty());
    assert!(Glossary::from_json_str("\"text\"").unwrap().is_empty());
    assert!(Glossary::from_json_str("{}").unwrap().is_empty());
}

#[test]
fn glossary_refuses_what_is_not_json() {
    match Glossary::from_json_str("{\"a\": ") {
        Err(TranslationError::Translate(TranslateError::GlossaryError(message))) => {
            assert!(!message.is_empty());
        }
        other => panic!("unexpected result: {:?}", other),
    }
    assert!(Glossary::from_json_str("").is_err());
}

#[test]
fn glossary_is_made_of_members_with_string_values() {
    let members = vec![
        ("a".to_string(), Some("1".to_string())),
        ("b".to_string(), None),
        ("a".to_string(), Some("2".to_string())),
    ];
    let g = Glossary::from_members(members);
    assert_eq!(g.len(), 1);
    assert_eq!(g.apply("ab"), "2b");
}
