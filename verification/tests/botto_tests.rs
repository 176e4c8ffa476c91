use backpack_wiki::backpack_db::Item;
use backpack_wiki::botto::{
    classify_answer, edit_gate, edit_reply_step, page_fields, page_lookup, page_step, should_prompt,
    update_is_notable, version_label_of, EditGate, EditStep, PageLookup, PageStep, PromptAnswer,
};
use backpack_wiki::version::{cmp_version, compare_data_versions, is_data_version, VersionOrder};

#[test]
fn answers_are_classified() {
    assert_eq!(classify_answer("y\n"), PromptAnswer::Edit);
    assert_eq!(classify_answer("  YES "), PromptAnswer::Edit);
    assert_eq!(classify_answer("Q"), PromptAnswer::Quit);
    assert_eq!(classify_answer("quit\n"), PromptAnswer::Quit);
    assert_eq!(classify_answer(""), PromptAnswer::Skip);
    assert_eq!(classify_answer("no"), PromptAnswer::Skip);
}

#[test]
fn prompting_follows_the_knobs() {
    assert!(should_prompt(true, true));
    assert!(!should_prompt(true, false));
    assert!(should_prompt(false, false));
    assert!(should_prompt(false, true));
}

#[test]
fn lookups_and_edit_replies() {
    assert_eq!(page_lookup(None), PageLookup::Found);
    assert_eq!(page_lookup(Some("missingtitle")), PageLookup::Missing);
    assert_eq!(page_lookup(Some("badtoken")), PageLookup::Failed);
    assert_eq!(edit_reply_step(true, false, false), EditStep::RetryAfter(70));
    assert_eq!(edit_reply_step(false, false, true), EditStep::Done);
    assert_eq!(edit_reply_step(false, true, true), EditStep::Failed);
    assert_eq!(edit_reply_step(false, false, false), EditStep::Failed);
}

#[test]
fn page_fields_end_with_the_version() {
    assert_eq!(version_label_of("0.13.1"), "v0.13.1");
    let it = Item {
        id: "ROCK".to_string(),
        name: "Rock".to_string(),
        types: vec!["Curse".to_string()],
        rarity: "Common".to_string(),
        descriptors: vec![],
        cost: None,
    };
    let fields = page_fields(&it, "v1");
    assert_eq!(fields.len(), 4);
    assert_eq!(fields[3], ("lastUpdate", "v1".to_string()));
    assert_eq!(fields[1], ("type", "Curse".to_string()));
}

#[test]
fn versions_compare_after_the_v() {
    assert_eq!(cmp_version("v0.13.1", "v0.13.2"), VersionOrder::Older);
    assert_eq!(cmp_version("v1.0", "v1.0"), VersionOrder::Same);
    assert_eq!(cmp_version("v2", "v1.9.9"), VersionOrder::Newer);
    assert_eq!(cmp_version("v0.10", "v0.9"), VersionOrder::Newer);
    assert!(is_data_version("v0.13.1"));
    assert!(!is_data_version("0.13.1"));
    assert_eq!(compare_data_versions("1.0", "v1.0"), None);
    assert_eq!(compare_data_versions("v1.0", "1.0"), None);
    assert_eq!(compare_data_versions("v1.1", "v1.0"), Some(VersionOrder::Newer));
}

#[test]
fn page_steps() {
    assert_eq!(page_step(Some("a"), "a", true), PageStep::Unchanged);
    assert_eq!(page_step(Some("a"), "b", true), PageStep::Ask);
    assert_eq!(page_step(Some("a"), "b", false), PageStep::Proceed);
    assert_eq!(page_step(None, "b", false), PageStep::Ask);
    assert_eq!(edit_gate(true), EditGate::Send);
    assert_eq!(edit_gate(false), EditGate::NoSummary);
    assert!(update_is_notable(true, false));
    assert!(!update_is_notable(false, true));
    assert!(!update_is_notable(false, false));
}
