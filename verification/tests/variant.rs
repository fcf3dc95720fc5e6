use rust_bot::basics::card::Identity;
use rust_bot::basics::clue::{BaseClue, ClueKind};
use rust_bot::basics::variant::{all_ids, card_count, id_touched, is_match, Suit, Variant, VariantManager, VariantOpts, NO_COLOUR};

fn listed(id: u32, name: &str, suits: &[&str]) -> Variant {
    Variant {
        id,
        name: name.to_string(),
        suits: suits.iter().map(|s| s.to_string()).collect(),
        critical_rank: None,
        clue_starved: None,
        special_rank: None,
        rainbow_s: None,
        white_s: None,
        pink_s: None,
        brown_s: None,
        deceptive_s: None,
        short_forms: None,
        colourable_suits: None,
    }
}

fn suit(name: &str, abbreviation: Option<&str>) -> Suit {
    Suit { name: name.to_string(), abbreviation: abbreviation.map(|a| a.to_string()) }
}

fn manager() -> VariantManager {
    let mut known = Variant::new(7, "Known", &["Red", "Rainbow"], &["r", "m"], VariantOpts::default());
    known.short_forms = Some(vec!["x".to_string(), "z".to_string()]);
    VariantManager::new(
        vec![
            listed(0, "No Variant", &["Red", "Yellow", "Green", "Blue", "Purple"]),
            listed(1, "Crowded", &["Red", "Rust", "Rose", "Black", "Pink"]),
            listed(2, "Unlisted", &["Red", "Mauve"]),
            known,
            listed(9, "No Variant", &["Teal"]),
        ],
        vec![
            suit("Red", None),
            suit("Yellow", None),
            suit("Green", None),
            suit("Blue", None),
            suit("Purple", None),
            suit("Rust", None),
            suit("Rose", None),
            suit("Teal", Some("t")),
        ],
    )
}

#[test]
fn it_finds_the_colourable_suits() {
    let v = Variant::new(16, "Rainbow", &["Red", "Yellow", "Green", "Blue", "Rainbow"], &["r", "y", "g", "b", "m"], VariantOpts::default());
    assert_eq!(v.colourable_suits, Some(vec!["Red".to_string(), "Yellow".to_string(), "Green".to_string(), "Blue".to_string()]));
    assert_eq!(v.short_forms.as_ref().unwrap().len(), 5);
    assert!(is_match(NO_COLOUR, "Rainbow"));
    assert!(!is_match(NO_COLOUR, "Red"));
}

#[test]
fn it_touches_by_the_variant_rules() {
    let v = Variant::new(16, "Rainbow", &["Red", "Yellow", "Green", "Blue", "Rainbow"], &["r", "y", "g", "b", "m"], VariantOpts::default());
    let red = BaseClue { kind: ClueKind::COLOUR, value: 0 };
    assert!(id_touched(Identity { suit_index: 0, rank: 3 }, &v, &red));
    assert!(id_touched(Identity { suit_index: 4, rank: 3 }, &v, &red));
    assert!(!id_touched(Identity { suit_index: 1, rank: 3 }, &v, &red));
    let three = BaseClue { kind: ClueKind::RANK, value: 3 };
    assert!(id_touched(Identity { suit_index: 1, rank: 3 }, &v, &three));
    assert!(!id_touched(Identity { suit_index: 1, rank: 4 }, &v, &three));
}

#[test]
fn it_counts_copies() {
    let v = Variant::new(2, "Black", &["Red", "Yellow", "Green", "Blue", "Black"], &["r", "y", "g", "b", "k"], VariantOpts::default());
    assert_eq!(card_count(&v, Identity { suit_index: 0, rank: 1 }), 3);
    assert_eq!(card_count(&v, Identity { suit_index: 0, rank: 2 }), 2);
    assert_eq!(card_count(&v, Identity { suit_index: 0, rank: 5 }), 1);
    assert_eq!(card_count(&v, Identity { suit_index: 4, rank: 1 }), 1);
    assert_eq!(all_ids(&v).len(), 25);
    assert_eq!(all_ids(&v)[6], Identity { suit_index: 1, rank: 2 });
}

#[test]
fn it_fills_in_short_forms() {
    let mut m = manager();
    let v = m.get_variant("No Variant");
    assert_eq!(v.id, 0);
    assert_eq!(v.short_forms, Some(vec!["r", "y", "g", "b", "p"].into_iter().map(String::from).collect()));
    assert_eq!(v.colourable_suits.as_ref().unwrap().len(), 5);
}

#[test]
fn it_picks_unused_short_forms() {
    let mut m = manager();
    let v = m.get_variant("Crowded");
    // Red takes "r"; Rust then takes the empty form; Rose takes its first unused letter.
    assert_eq!(v.short_forms, Some(vec!["r", "", "o", "k", "i"].into_iter().map(String::from).collect()));
    assert_eq!(v.colourable_suits.as_ref().unwrap().len(), 5);
}

#[test]
fn it_keeps_listed_short_forms() {
    let mut m = manager();
    let v = m.get_variant("Known");
    assert_eq!(v.short_forms, Some(vec!["x".to_string(), "z".to_string()]));
    assert_eq!(v.colourable_suits, Some(vec!["Red".to_string()]));
}

#[test]
fn it_refuses_unknown_variants_and_suits() {
    let m = manager();
    assert!(!m.can_get_variant("Nowhere"));
    assert!(m.find_variant("Nowhere").is_none());
    assert!(!m.can_get_variant("Unlisted"));
}
