use keyfile::{Card, Field, KeyWord};

fn card(name: &str, width: i8) -> Card {
    Card::new(vec![Field {
        name: String::from(name),
        default: String::new(),
        help: String::new(),
        position: 0,
        options: vec![],
        width,
    }])
}

#[test]
fn test_new_keyword() {
    let cards = vec![card("A", 1), card("B", 2)];
    let k = KeyWord::new(String::from("*MAT_ELASTIC"), cards.clone(), true);
    assert_eq!(k.keyword, "*MAT_ELASTIC");
    assert_eq!(k.cards, cards);
    assert!(k.is_commented);

    let k = KeyWord::new(String::new(), vec![], false);
    assert_eq!(k.keyword, "");
    assert!(k.cards.is_empty());
    assert!(!k.is_commented);
}

#[test]
fn test_empty_keyword() {
    let k = KeyWord::empty_keyword();
    assert_eq!(k.is_commented, false);
    assert_eq!(k.keyword, String::new());
    assert_eq!(k.cards.len(), 0);
    assert_eq!(k, KeyWord::new(String::new(), vec![], false));
}

#[test]
fn test_add_keyword() {
    // Keywords have no merge of their own: cards are given at construction
    // and keep their order.
    let k = KeyWord::new(String::from("*NODE"), vec![card("B", 2), card("A", 1), card("B", 3)], false);
    assert_eq!(k.cards.len(), 3);
    assert_eq!(k.cards[0], card("B", 2));
    assert_eq!(k.cards[1], card("A", 1));
    assert_eq!(k.cards[2], card("B", 3));
}

#[test]
fn test_comment_keyword() {
    let cards = vec![card("A", 1)];
    let mut k = KeyWord::new(String::from("*NODE"), cards.clone(), false);
    k.comment();
    assert!(k.is_commented);
    assert_eq!(k.keyword, "*NODE");
    assert_eq!(k.cards, cards);
    k.comment();
    assert_eq!(k, KeyWord::new(String::from("*NODE"), cards, true));
}

#[test]
fn test_uncomment_keyword() {
    let cards = vec![card("A", 1)];
    let mut k = KeyWord::new(String::from("*NODE"), cards.clone(), true);
    k.uncomment();
    assert!(!k.is_commented);
    assert_eq!(k.keyword, "*NODE");
    assert_eq!(k.cards, cards);
    k.uncomment();
    assert_eq!(k, KeyWord::new(String::from("*NODE"), cards, false));
}

#[test]
fn comment_and_uncomment_undo_each_other() {
    let mut k = KeyWord::new(String::from("*NODE"), vec![card("A", 1)], false);
    let active = k.clone();
    k.comment();
    assert_ne!(k, active);
    k.uncomment();
    assert_eq!(k, active);
}

#[test]
fn cleared_keyword_is_commented_out() {
    let mut k = KeyWord::new(String::from("*NODE"), vec![card("A", 1), card("B", 2)], false);
    k.clear();
    assert_eq!(k.keyword, "");
    assert!(k.cards.is_empty());
    assert!(k.is_commented);
    assert_ne!(k, KeyWord::empty_keyword());

    let once = k.clone();
    k.clear();
    assert_eq!(k, once);

    k.uncomment();
    assert_eq!(k, KeyWord::empty_keyword());
}

#[test]
fn keyword_equality_looks_at_every_attribute() {
    let base = KeyWord::new(String::from("*NODE"), vec![card("A", 1), card("B", 2)], false);
    assert_eq!(base, base.clone());
    assert_ne!(base, KeyWord::new(String::from("*NODES"), vec![card("A", 1), card("B", 2)], false));
    assert_ne!(base, KeyWord::new(String::from("*NODE"), vec![card("B", 2), card("A", 1)], false));
    assert_ne!(base, KeyWord::new(String::from("*NODE"), vec![card("A", 1)], false));
    assert_ne!(base, KeyWord::new(String::from("*NODE"), vec![card("A", 1), card("B", 3)], false));
    assert_ne!(base, KeyWord::new(String::from("*NODE"), vec![card("A", 1), card("B", 2)], true));
}
