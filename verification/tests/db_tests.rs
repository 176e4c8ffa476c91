use backpack_wiki::backpack_db::{capitalize, links_unambiguous, wikify_description_links, Item, ItemRaw, UseCost};

fn item(id: &str, name: &str, descriptors: &[&str]) -> Item {
    Item {
        id: id.to_string(),
        name: name.to_string(),
        types: vec![],
        rarity: "Common".to_string(),
        descriptors: descriptors.iter().map(|d| d.to_string()).collect(),
        cost: None,
    }
}

#[test]
fn capitalize_keeps_of_lowercase() {
    assert_eq!(capitalize("POTION OF HEALING"), "Potion of Healing");
    assert_eq!(capitalize("of mice and men"), "of Mice And Men");
    assert_eq!(capitalize("BAG OF"), "Bag Of");
    assert_eq!(capitalize("MR. OFFICER"), "Mr. Officer");
    assert_eq!(capitalize(""), "");
    assert_eq!(capitalize("ÉPÉE  DE  LUMIÈRE"), "Épée  De  Lumière");
}

#[test]
fn from_raw_names_and_normalizes_cost() {
    let raw = ItemRaw {
        name: "WOODEN SWORD".to_string(),
        types: vec!["Weapon".to_string()],
        rarity: "Common".to_string(),
        descriptors: vec!["Deal 5 damage".to_string()],
        cost: Some(UseCost { energy: None, mana: None, gold: None }),
    };
    let it = Item::from_raw(raw);
    assert_eq!(it.id, "WOODEN SWORD");
    assert_eq!(it.name, "Wooden Sword");
    assert_eq!(it.types, vec!["Weapon".to_string()]);
    assert_eq!(it.cost, None);

    let raw = ItemRaw {
        name: "ARROW".to_string(),
        types: vec![],
        rarity: "Rare".to_string(),
        descriptors: vec![],
        cost: Some(UseCost { energy: Some(1), mana: None, gold: None }),
    };
    let it = Item::from_raw(raw);
    assert_eq!(it.cost, Some(UseCost { energy: Some(1), mana: None, gold: None }));
}

#[test]
fn infobox_pairs_lists_fields_in_order() {
    let it = Item {
        id: "HEALTH POTION".to_string(),
        name: "Health Potion".to_string(),
        types: vec!["Consumable".to_string(), "Potion".to_string()],
        rarity: "Common".to_string(),
        descriptors: vec!["  Heals 5. ".to_string(), " /A tasty drink".to_string(), "Lasts 1 turn".to_string()],
        cost: Some(UseCost { energy: Some(1), mana: None, gold: Some(-3) }),
    };
    let pairs = it.to_infobox_pairs();
    let expected: Vec<(&str, String)> = vec![
        ("title", "Health Potion".to_string()),
        ("type", "Consumable, Potion".to_string()),
        ("rarity", "Common".to_string()),
        ("useCost", "1 Energy, -3 Gold".to_string()),
        ("effects", "Heals 5.<br/>\nLasts 1 turn".to_string()),
        ("description", "A tasty drink".to_string()),
    ];
    assert_eq!(pairs, expected);
}

#[test]
fn infobox_pairs_without_cost_effects_or_description() {
    let it = Item {
        id: "ROCK".to_string(),
        name: "Rock".to_string(),
        types: vec![],
        rarity: "Common".to_string(),
        descriptors: vec![],
        cost: None,
    };
    let pairs = it.to_infobox_pairs();
    let expected: Vec<(&str, String)> = vec![
        ("title", "Rock".to_string()),
        ("type", "".to_string()),
        ("rarity", "Common".to_string()),
    ];
    assert_eq!(pairs, expected);
    let it = Item { cost: Some(UseCost { energy: None, mana: Some(2), gold: None }), ..it };
    assert_eq!(it.to_infobox_pairs()[3], ("useCost", "2 mana".to_string()));
}

#[test]
fn wikify_links_longest_mention() {
    let mut items = vec![
        item("SWORD", "Sword", &["Deals damage. Stacks with SWORD and SWORD.", "/Found near FIRE SWORD"]),
        item("FIRE SWORD", "Fire Sword", &["Burns."]),
    ];
    assert!(links_unambiguous(&items));
    wikify_description_links(&mut items);
    assert_eq!(items[0].descriptors[0], "Deals damage. Stacks with [[Sword]] and [[Sword]].");
    assert_eq!(items[0].descriptors[1], "/Found near [[Fire Sword]]");
    assert_eq!(items[1].descriptors[0], "Burns.");
    assert_eq!(items[0].id, "SWORD");
    assert_eq!(items[1].name, "Fire Sword");
}

#[test]
fn wikify_drops_arrow_without_ethereal_arrow() {
    let mut items = vec![item("ARROW", "Arrow", &[]), item("BOW", "Bow", &["Shoots ARROW"])];
    wikify_description_links(&mut items);
    assert_eq!(items[1].descriptors[0], "Shoots ARROW");

    let mut items = vec![
        item("ARROW", "Arrow", &[]),
        item("ETHEREAL ARROW", "Ethereal Arrow", &[]),
        item("BOW", "Bow", &["Shoots ARROW", "Shoots ETHEREAL ARROW"]),
    ];
    assert!(links_unambiguous(&items));
    wikify_description_links(&mut items);
    assert_eq!(items[2].descriptors[0], "Shoots [[Arrow]]");
    assert_eq!(items[2].descriptors[1], "Shoots [[Ethereal Arrow]]");
}

#[test]
fn ambiguous_mentions_are_detected() {
    let items = vec![item("AB", "Ab", &[]), item("BC", "Bc", &["ABC"])];
    assert!(!links_unambiguous(&items));
    let items = vec![item("AB", "Ab", &[]), item("BC", "Bc", &["AB and BC"])];
    assert!(!links_unambiguous(&items));
    let items = vec![item("AB", "Ab", &[]), item("AB", "Another", &["AB"])];
    assert!(links_unambiguous(&items));
}

#[test]
fn duplicate_identifiers_link_to_the_last_item() {
    let mut items = vec![item("AB", "First", &[]), item("AB", "Second", &["see AB"])];
    wikify_description_links(&mut items);
    assert_eq!(items[1].descriptors[0], "see [[Second]]");
}

#[test]
fn capitalize_twice_and_ignoring_case() {
    for s in ["POTION OF HEALING", "of mice and men", "bAg oF hOLDING", "MR. OFFICER", "a b  c"] {
        let once = capitalize(s);
        assert_eq!(capitalize(&once), once);
        assert_eq!(capitalize(&s.to_lowercase()), once);
        assert_eq!(capitalize(&s.to_uppercase()), once);
        assert_eq!(once.to_lowercase(), s.to_lowercase());
    }
}
