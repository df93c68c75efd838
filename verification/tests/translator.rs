use paradox_mod_translator::error::{TranslateError, TranslationError};
use paradox_mod_translator::postprocess::TranslationSlice;
use paradox_mod_translator::translate::{Glossary, GlossaryEntry, Problem, Role, Translator};

fn glossary(pairs: &[(&str, &str)]) -> Glossary {
    let mut g = Glossary::new();
    for (source, target) in pairs {
        g.insert(GlossaryEntry {
            source: source.to_string(),
            target: target.to_string(),
            force: false,
        });
    }
    g
}

#[test]
fn prompt_lists_the_terms_of_the_text_in_order() {
    let translator = Translator::new(vec![glossary(&[
        ("Fleet", "Flotte"),
        ("Star", "Stern"),
        ("Empire", "Reich"),
    ])]);
    let prompt = translator.system_prompt(
        "Terms:\n{{glossary_csv}}\nTranslate.",
        "english",
        "german",
        "The Fleet of the Empire",
    );
    assert_eq!(prompt, "Terms:\nenglish,german\nEmpire,Reich\nFleet,Flotte\nTranslate.");
}

#[test]
fn prompt_says_when_no_term_occurs() {
    let translator = Translator::new(vec![glossary(&[("Fleet", "Flotte")])]);
    let prompt = translator.system_prompt("[{{glossary_csv}}]", "english", "german", "nothing");
    assert_eq!(prompt, "[（无相关术语）]");
    let translator = Translator::new(vec![]);
    let prompt = translator.system_prompt("[{{glossary_csv}}]", "english", "german", "Fleet");
    assert_eq!(prompt, "[（无相关术语）]");
}

#[test]
fn prompt_lists_a_term_of_several_glossaries_once() {
    let translator = Translator::new(vec![
        glossary(&[("b", "1"), ("a", "2")]),
        glossary(&[("c", "3"), ("a", "4")]),
    ]);
    let prompt = translator.system_prompt("{{glossary_csv}}", "x", "y", "cab");
    assert_eq!(prompt, "x,y\na,4\nb,1\nc,3");
    let translator =
        Translator::new(vec![glossary(&[("a", "x")]), glossary(&[("a", "y")])]);
    assert_eq!(translator.system_prompt("{{glossary_csv}}", "en", "fr", "a"), "en,fr\na,y");
}

#[test]
fn prompt_leaves_out_terms_that_do_not_occur() {
    let translator = Translator::new(vec![
        glossary(&[("Fleet", "Flotte"), ("Star", "Stern")]),
        glossary(&[("Empire", "Reich")]),
    ]);
    let prompt = translator.system_prompt("{{glossary_csv}}", "en", "de", "The Empire");
    assert_eq!(prompt, "en,de\nEmpire,Reich");
}

#[test]
fn prompt_orders_terms_by_their_characters() {
    let translator =
        Translator::new(vec![glossary(&[("b", "1"), ("ab", "2"), ("B", "3"), ("a", "4"), ("é", "5")])]);
    let prompt = translator.system_prompt("{{glossary_csv}}", "x", "y", "abBé");
    assert_eq!(prompt, "x,y\nB,3\na,4\nab,2\nb,1\né,5");
}

#[test]
fn prompt_replaces_every_placeholder() {
    let translator = Translator::new(vec![]);
    let prompt = translator.system_prompt("{{glossary_csv}}{{glossary_csv}}", "x", "y", "");
    assert_eq!(prompt, "（无相关术语）（无相关术语）");
    assert_eq!(translator.system_prompt("no placeholder", "x", "y", ""), "no placeholder");
}

#[test]
fn request_has_a_system_and_a_user_message() {
    let request = Translator::messages("instructions".to_string(), "a: \"b\"");
    assert_eq!(request.len(), 2);
    assert_eq!(request[0].role, Role::System);
    assert_eq!(request[0].content, "instructions");
    assert_eq!(request[1].role, Role::User);
    assert_eq!(request[1].content, "a: \"b\"");
}

#[test]
fn answer_without_candidates_is_invalid() {
    let translator = Translator::new(vec![]);
    let source = TranslationSlice { content: "a: \"b\"".to_string(), start_line: 3, end_line: 3 };
    match translator.accept_response(&source, vec![]) {
        Err(TranslationError::Translate(TranslateError::InvalidResponse(message))) => {
            assert_eq!(message, "No choices in API response");
        }
        other => panic!("unexpected result: {:?}", other),
    }
}

#[test]
fn first_candidate_is_the_translation() {
    let translator = Translator::new(vec![]);
    let source =
        TranslationSlice { content: "a: \"$X$ b\"\n".to_string(), start_line: 3, end_line: 4 };
    let accepted = translator
        .accept_response(&source, vec!["a: \"$X$ c\"".to_string(), "second".to_string()])
        .unwrap();
    assert_eq!(accepted.slice.content, "a: \"$X$ c\"");
    assert_eq!(accepted.slice.start_line, 3);
    assert_eq!(accepted.slice.end_line, 4);
    assert!(accepted.problems.is_empty());
}

#[test]
fn problems_come_with_the_translation() {
    let translator = Translator::new(vec![]);
    let source =
        TranslationSlice { content: "a: \"$X$\"\nb: \"y\"".to_string(), start_line: 1, end_line: 2 };
    let accepted = translator.accept_response(&source, vec!["a: \"x\"".to_string()]).unwrap();
    assert_eq!(accepted.slice.content, "a: \"x\"");
    assert_eq!(accepted.problems.len(), 2);
    assert!(matches!(&accepted.problems[0], Problem::MissingKey { key } if key == "b"));
    assert!(matches!(
        &accepted.problems[1],
        Problem::PatternNotFound { key, original } if key == "a" && original == "$X$"
    ));
}
