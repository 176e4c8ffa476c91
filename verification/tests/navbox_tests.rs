use backpack_wiki::backpack_db::Item;
use backpack_wiki::navbox::{navbox_input_ok, render_navbox};

fn item(name: &str, types: &[&str], rarity: &str) -> Item {
    Item {
        id: name.to_uppercase(),
        name: name.to_string(),
        types: types.iter().map(|t| t.to_string()).collect(),
        rarity: rarity.to_string(),
        descriptors: vec![],
        cost: None,
    }
}

fn sample() -> Vec<Item> {
    vec![
        item("Sword", &["Weapon"], "Common"),
        item("Axe", &["Weapon", "Melee"], "Common"),
        item("Bow", &["Bow"], "Rare"),
        item("Shield", &["Shield"], "Uncommon"),
        item("Hat", &["Armor"], "Legendary"),
        item("Bad Luck", &["Curse"], "Rare"),
        item("Rock", &["Junk"], "Common"),
    ]
}

#[test]
fn navbox_lays_out_categories_and_rarities() {
    let items = sample();
    assert!(navbox_input_ok(&items));
    let expected = String::new()
        + "|-\n! width=\"10%\" rowspan=\"2\" | Weapon\n"
        + "! Common\n| [[Axe]] • [[Sword]] \n"
        + "|-\n"
        + "! Rare\n| [[Bow]] \n"
        + "|-\n! width=\"10%\" rowspan=\"2\" | Armor\n"
        + "! Uncommon\n| [[Shield]] \n"
        + "|-\n"
        + "! Legendary\n| [[Hat]] \n"
        + "|-\n! width=\"10%\" rowspan=\"0\" | Accessory\n"
        + "|-\n! width=\"10%\" rowspan=\"0\" | Consumable\n"
        + "|-\n! width=\"10%\" rowspan=\"1\" | Curse\n"
        + "| colspan=\"2\" | [[Bad Luck]] \n"
        + "|-\n! width=\"10%\" rowspan=\"0\" | Relic\n"
        + "|-\n! width=\"10%\" rowspan=\"1\" | Other\n"
        + "| colspan=\"2\" | [[Rock]] \n";
    assert_eq!(render_navbox(&items), expected);
}

#[test]
fn navbox_of_no_items_has_empty_categories() {
    let items: Vec<Item> = vec![];
    assert!(navbox_input_ok(&items));
    let mut expected = String::new();
    for c in ["Weapon", "Armor", "Accessory", "Consumable", "Curse", "Relic", "Other"] {
        expected.push_str(&format!("|-\n! width=\"10%\" rowspan=\"0\" | {}\n", c));
    }
    assert_eq!(render_navbox(&items), expected);
}

#[test]
fn navbox_sorts_names_by_bytes() {
    let items = vec![
        item("banana", &["Relic"], "Common"),
        item("Cherry", &["Relic"], "Common"),
        item("apple", &["Relic"], "Common"),
        item("Apple Pie", &["Relic"], "Common"),
        item("Apple", &["Relic"], "Common"),
    ];
    assert!(navbox_input_ok(&items));
    let text = render_navbox(&items);
    assert!(text.contains(
        "| colspan=\"2\" | [[Apple]] • [[Apple Pie]] • [[Cherry]] • [[apple]] • [[banana]] \n"
    ));
}

#[test]
fn navbox_keeps_duplicate_names() {
    let items = vec![
        item("Gem", &["Relic"], "Rare"),
        item("Gem", &["Relic"], "Rare"),
    ];
    let text = render_navbox(&items);
    assert!(text.contains("| colspan=\"2\" | [[Gem]] • [[Gem]] \n"));
}

#[test]
fn navbox_rejects_item_of_two_categories() {
    let items = vec![item("Spiked Shield", &["Weapon", "Shield"], "Common")];
    assert!(!navbox_input_ok(&items));
}

#[test]
fn navbox_rejects_unknown_rarity() {
    let items = vec![item("Odd", &["Relic"], "Epic")];
    assert!(!navbox_input_ok(&items));
}

#[test]
fn navbox_rejects_single_row_of_weapons() {
    let items = vec![item("Sword", &["Weapon"], "Common")];
    assert!(!navbox_input_ok(&items));
    let items = vec![
        item("Sword", &["Weapon"], "Common"),
        item("Wand", &["Wand"], "Legendary"),
    ];
    assert!(navbox_input_ok(&items));
}

#[test]
fn navbox_single_row_other_uses_colspan() {
    let items = vec![item("Rock", &[], "Uncommon"), item("Pebble", &["Stone"], "Uncommon")];
    assert!(navbox_input_ok(&items));
    let text = render_navbox(&items);
    assert!(text.ends_with(
        "|-\n! width=\"10%\" rowspan=\"1\" | Other\n| colspan=\"2\" | [[Pebble]] • [[Rock]] \n"
    ));
}
