use backpack_wiki::wikiparse::{
    _make_infobox_skipping_some, infobox_update_error, try_update_infobox, update_infobox,
    update_infobox_in_page, write_new_page, InfoboxError, WikiLeaf, WikiNode, WikiPage,
    WikiParameter,
};

#[test]
fn new_page_lists_fields_and_stub() {
    let fields: Vec<(&str, String)> = vec![
        ("title", "Sword".to_string()),
        ("type", " Weapon ".to_string()),
    ];
    assert_eq!(
        write_new_page(&fields),
        "{{Item\n | title = Sword\n | type = Weapon\n}}\n{{Stub}}"
    );
    assert_eq!(write_new_page(&[]), "{{Item\n\n}}\n{{Stub}}");
}

#[test]
fn infobox_keeps_given_parts_and_skips_listed_keys() {
    let fields: Vec<(&str, String)> = vec![("title", "A".to_string()), ("rarity", "Rare".to_string())];
    let skip = vec!["title".to_string()];
    assert_eq!(
        _make_infobox_skipping_some(&fields, vec!["title = Old".to_string()], Some(&skip)),
        "{{Item\n | title = Old\n | rarity = Rare\n}}"
    );
    assert_eq!(
        _make_infobox_skipping_some(&fields, vec![], None),
        "{{Item\n | title = A\n | rarity = Rare\n}}"
    );
}

#[test]
fn update_rewrites_matching_parameters_and_appends_new_ones() {
    let page = "{{Item\n | title = Foo\n | rarity = Common\n}}\nSome text";
    let fields: Vec<(&str, String)> = vec![("title", "Bar".to_string()), ("lastUpdate", "v1".to_string())];
    let r = update_infobox(page, &fields);
    assert_eq!(
        r.new_text,
        "{{Item\n | title = Bar\n | rarity = Common\n | lastUpdate = v1\n}}\nSome text"
    );
    assert!(r.meaningful_change);
    assert_eq!(r.old_version, None);
    assert_eq!(
        r.changes,
        vec![("title".to_string(), "Foo".to_string(), "Bar".to_string())]
    );
    assert_eq!(r.added_keys, vec!["lastUpdate".to_string()]);
    assert_eq!(try_update_infobox(page, &fields).unwrap().new_text, r.new_text);
}

#[test]
fn update_matches_keys_case_insensitively_and_reports_old_version() {
    let page = "Intro\n{{item\n | title = Foo\n | lastUpdate = v0.1\n}}";
    let fields: Vec<(&str, String)> = vec![("Title", " Foo ".to_string()), ("lastUpdate", "v0.2".to_string())];
    let r = update_infobox(page, &fields);
    assert_eq!(
        r.new_text,
        "Intro\n{{Item\n | title = Foo\n | lastUpdate = v0.2\n | Title = Foo\n}}"
    );
    assert!(!r.meaningful_change);
    assert_eq!(r.old_version.as_deref(), Some("v0.1"));
    assert!(r.changes.is_empty());
    assert_eq!(r.added_keys, vec!["Title".to_string()]);
}

#[test]
fn update_of_empty_infobox_appends_all_fields() {
    let fields: Vec<(&str, String)> = vec![("a", "1".to_string())];
    let r = update_infobox("{{Item}}", &fields);
    assert_eq!(r.new_text, "{{Item\n | a = 1\n}}");
    assert_eq!(r.added_keys, vec!["a".to_string()]);
    assert!(!r.meaningful_change);
}

#[test]
fn update_errors() {
    let fields: Vec<(&str, String)> = vec![("a", "1".to_string())];
    assert_eq!(try_update_infobox("Just text", &fields).err(), Some(InfoboxError::InfoboxCount(0)));
    assert_eq!(
        try_update_infobox("{{Item|a=1}}{{item|b=2}}", &fields).err(),
        Some(InfoboxError::InfoboxCount(2))
    );
    assert_eq!(try_update_infobox("{{}}", &fields).err(), Some(InfoboxError::MalformedTemplateName));
    assert_eq!(try_update_infobox("\n\n{{Item|a=1}}", &fields).err(), Some(InfoboxError::ParseWarnings));
    assert_eq!(try_update_infobox("{{Item|foo}}", &fields).err(), Some(InfoboxError::MalformedParameter));
    let dup: Vec<(&str, String)> = vec![("Title", "a".to_string()), ("title", "b".to_string())];
    assert_eq!(try_update_infobox("{{Item|a=1}}", &dup).err(), Some(InfoboxError::DuplicateKeys));
}

#[test]
fn update_of_a_given_parse() {
    let item_name = || vec![WikiLeaf::TextLeaf(2, 6, "Item".to_string())];
    let page = WikiPage(vec![WikiNode::TemplateNode(1, 2, item_name(), vec![])], 0);
    assert_eq!(
        infobox_update_error("é", &page, &[]),
        Some(InfoboxError::TemplateOutsideText)
    );
    let text = "{{Item|x=[[y]]}}";
    let page = WikiPage(
        vec![WikiNode::TemplateNode(
            0,
            16,
            item_name(),
            vec![WikiParameter(7, 14, Some(vec![WikiLeaf::OtherLeaf]), vec![])],
        )],
        0,
    );
    assert_eq!(
        infobox_update_error(text, &page, &[]),
        Some(InfoboxError::MalformedParameter)
    );
    let page = WikiPage(
        vec![
            WikiNode::OtherNode,
            WikiNode::TemplateNode(
                0,
                16,
                item_name(),
                vec![WikiParameter(
                    7,
                    14,
                    Some(vec![WikiLeaf::TextLeaf(7, 8, "x".to_string())]),
                    vec![WikiLeaf::LinkLeaf(9, 14)],
                )],
            ),
        ],
        0,
    );
    let r = update_infobox_in_page(text, &page, &[("X", "z".to_string())]);
    assert_eq!(r.new_text, "{{Item\n | x = z\n | X = z\n}}");
    assert!(r.meaningful_change);
    assert_eq!(r.changes, vec![("x".to_string(), "[[y]]".to_string(), "z".to_string())]);
    let r = update_infobox_in_page(text, &page, &[]);
    assert_eq!(r.new_text, "{{Item\n | x=[[y]]\n}}");
    assert!(!r.meaningful_change);
    let warned = WikiPage(vec![], 1);
    assert_eq!(infobox_update_error(text, &warned, &[]), Some(InfoboxError::ParseWarnings));
}

#[test]
fn new_page_round_trips_through_an_update() {
    let fields: Vec<(&str, String)> = vec![
        ("title", "Wooden Sword".to_string()),
        ("type", "Weapon, Melee".to_string()),
        ("lastUpdate", " v0.13.1 ".to_string()),
    ];
    let page = write_new_page(&fields);
    let r = update_infobox(&page, &fields);
    assert_eq!(r.new_text, page);
    assert!(!r.meaningful_change);
    assert!(r.changes.is_empty());
    assert_eq!(r.old_version.as_deref(), Some("v0.13.1"));
}

#[test]
fn second_update_changes_nothing() {
    let page = "Intro\n{{Item\n | title = Foo\n | rarity = Common\n}}\nOutro";
    let fields: Vec<(&str, String)> = vec![("title", "Bar".to_string()), ("effects", "Heal 2".to_string())];
    let r1 = update_infobox(page, &fields);
    let r2 = update_infobox(&r1.new_text, &fields);
    assert_eq!(r2.new_text, r1.new_text);
    assert!(!r2.meaningful_change);
}
