use markwrite::grammar::{
    check_result_from, display_grammar_check_results, process_language_tools_results, CheckResult,
    Checker, ResponseMatch,
};

fn response_match(message: &str, replacements: &[&str]) -> ResponseMatch {
    ResponseMatch {
        message: message.to_string(),
        short_message: "Spelling mistake".to_string(),
        replacements: replacements.iter().map(|r| r.to_string()).collect(),
        offset: 20,
        length: 4,
        context_text: "The quick brown foox jumps".to_string(),
        context_offset: 16,
        context_length: 4,
        sentence: "The quick brown foox jumps.".to_string(),
        rule_id: "MORFOLOGIK_RULE_EN_GB".to_string(),
        rule_description: "Possible spelling mistake".to_string(),
        rule_issue_type: "misspelling".to_string(),
        rule_category_id: "TYPOS".to_string(),
        rule_category_name: "Possible Typo".to_string(),
        rule_is_premium: false,
        match_type_name: "UnknownWord".to_string(),
    }
}

#[test]
fn test_context() {
    //arrange

    let grammar_check_result = CheckResult {
        context_length: 4,
        context_offset: 16,
        message: "Possible spelling mistake found.".into(),
        sentence: "The quick brown foox jumps over the lazy dog".into(),
        short_message: "Spelling mistake".into(),
        text: "The quick brown foox jumps over the lazy dog".into(),
        replacements: vec![
            "food".into(),
            "foot".into(),
            "fool".into(),
            "fox".into(),
            "foo".into(),
        ],
        rule_description: "Possible spelling mistake".into(),
    };

    // act
    let result = grammar_check_result.context();

    // assert
    let expected = "The quick brown \u{1b}[94mfoox\u{1b}[39m jumps over the lazy dog";
    assert_eq!(result, expected);
}

#[test]
fn replacements_are_capped_at_five_in_order() {
    let m = response_match("m", &["a", "b", "c", "d", "e", "f", "g", "h"]);
    let result = check_result_from(&m);
    assert_eq!(result.replacements, vec!["a", "b", "c", "d", "e"]);
}

#[test]
fn few_replacements_are_all_kept() {
    let m = response_match("m", &["x", "y"]);
    assert_eq!(check_result_from(&m).replacements, vec!["x", "y"]);
    let none = response_match("m", &[]);
    assert!(check_result_from(&none).replacements.is_empty());
}

#[test]
fn response_fields_are_carried_over() {
    let m = response_match("Possible spelling mistake found.", &["fox"]);
    let r = check_result_from(&m);
    assert_eq!(r.message(), "Possible spelling mistake found.");
    assert_eq!(r.short_message(), "Spelling mistake");
    assert_eq!(r.sentence(), "The quick brown foox jumps.");
    assert_eq!(r.rule_description(), "Possible spelling mistake");
    assert_eq!(r.text, "The quick brown foox jumps");
    assert_eq!((r.context_offset, r.context_length), (16, 4));
}

#[test]
fn processed_results_are_appended_in_order() {
    let matches = vec![response_match("first", &[]), response_match("second", &["s"])];
    let mut results = vec![check_result_from(&response_match("earlier", &[]))];
    process_language_tools_results(&matches, &mut results);
    let messages: Vec<&str> = results.iter().map(|r| r.message()).collect();
    assert_eq!(messages, vec!["earlier", "first", "second"]);
}

#[test]
fn replacements_string_lists_each_suggestion() {
    let r = check_result_from(&response_match("m", &["fox", "foo"]));
    let expected = "        \u{1b}[37m-\u{1b}[39m \u{1b}[96mfox\u{1b}[39m\n        \u{1b}[37m-\u{1b}[39m \u{1b}[96mfoo\u{1b}[39m\n";
    assert_eq!(r.replacements_string(), Some(expected.to_string()));
    let bare = check_result_from(&response_match("m", &[]));
    assert_eq!(bare.replacements_string(), None);
}

#[test]
fn span_validity_is_reported() {
    let mut r = check_result_from(&response_match("m", &[]));
    assert!(r.has_valid_span());
    r.context_offset = 25;
    assert!(!r.has_valid_span());
}

#[test]
fn report_shows_each_part_of_a_finding() {
    let r = check_result_from(&response_match("Possible spelling mistake found.", &[]));
    let report = display_grammar_check_results(&vec![r], "doc.md");
    let expected = [
        "\n\n  * doc.md / line \u{1b}[37m(\u{1b}[39m\u{1b}[96mSpelling mistake\u{1b}[39m\u{1b}[37m)\u{1b}[39m:\n",
        "    Possible spelling mistake\n",
        "\n    The quick brown \u{1b}[94mfoox\u{1b}[39m jumps\n\n",
        "    \u{1b}[37mThe quick brown foox jumps.\u{1b}[39m\n",
        "\n    \u{1b}[94mPossible spelling mistake found.\u{1b}[39m\n\n\n",
    ]
    .concat();
    assert_eq!(report, expected);
    assert_eq!(display_grammar_check_results(&vec![], "doc.md"), "");
}

#[test]
fn report_lists_replacements_when_present() {
    let r = check_result_from(&response_match("m", &["fox"]));
    let report = display_grammar_check_results(&vec![r], "p");
    assert!(report.contains("    replacements:\n\n        \u{1b}[37m-\u{1b}[39m \u{1b}[96mfox\u{1b}[39m\n\n"));
}

#[test]
fn checker_uses_default_endpoint() {
    assert_eq!(Checker::new(None).url(), "https://api.languagetoolplus.com/v2/check");
    assert_eq!(Checker::new(Some("http://localhost:8081/v2/check")).url(), "http://localhost:8081/v2/check");
}

#[test]
fn form_fields_hold_text_language_and_level() {
    let fields = Checker::form_fields("Some text.");
    assert_eq!(fields, vec![("text", "Some text."), ("language", "en-GB"), ("level", "picky")]);
}
