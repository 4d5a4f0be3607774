use keyfile::{Card, Deck, Field, KeyWord};

fn keyword(name: &str, width: i8) -> KeyWord {
    let card = Card::new(vec![Field {
        name: String::from("A"),
        default: String::new(),
        help: String::new(),
        position: 0,
        options: vec![],
        width,
    }]);
    KeyWord::new(String::from(name), vec![card], false)
}

#[test]
fn test_new_deck() {
    let keywords = vec![keyword("*NODE", 1), keyword("*ELEMENT", 2)];
    let d = Deck::new(keywords.clone());
    assert_eq!(d.keywords, keywords);
    assert_eq!(d.prefix, "");
}

#[test]
fn test_new_deck_with_prefix() {
    let keywords = vec![keyword("*NODE", 1), keyword("*ELEMENT", 2)];
    let d = Deck::new_with_prefix(keywords.clone(), String::from("model_a"));
    assert_eq!(d.keywords, keywords);
    assert_eq!(d.prefix, "model_a");
    assert_eq!(Deck::new_with_prefix(keywords.clone(), String::new()), Deck::new(keywords));
}

#[test]
fn test_new_blank_deck() {
    let d = Deck::create_blank_deck();
    assert_eq!(d.keywords.len(), 0);
    assert_eq!(d.prefix, String::new());
    assert_eq!(d, Deck::new(vec![]));
}

#[test]
fn test_clear_keywords() {
    let mut d = Deck::new_with_prefix(
        vec![keyword("*NODE", 1), keyword("*ELEMENT", 2)],
        String::from("model_a"),
    );
    d.clear_keywords();
    assert!(d.keywords.is_empty());
    assert_eq!(d.prefix, "model_a");
    d.clear_keywords();
    assert_eq!(d, Deck::new_with_prefix(vec![], String::from("model_a")));
}

#[test]
fn test_empty_deck() {
    let mut d = Deck::new_with_prefix(
        vec![keyword("*NODE", 1), keyword("*ELEMENT", 2)],
        String::from("model_a"),
    );
    d.empty();
    assert!(d.keywords.is_empty());
    assert_eq!(d.prefix, "");
    assert_eq!(d, Deck::create_blank_deck());
}

#[test]
fn test_add_keyword_to_deck() {
    let d = Deck::new_with_prefix(vec![keyword("*NODE", 1)], String::from("model_a"));
    let d = d + keyword("*ELEMENT", 2);
    assert_eq!(d.keywords, vec![keyword("*NODE", 1), keyword("*ELEMENT", 2)]);
    assert_eq!(d.prefix, "model_a");
    let d = d + keyword("*NODE", 1);
    assert_eq!(d.keywords.len(), 3);
    assert_eq!(d.keywords[2], keyword("*NODE", 1));
}

#[test]
fn test_add_deck_to_deck() {
    let a = Deck::new_with_prefix(
        vec![keyword("*NODE", 1), keyword("*ELEMENT", 2)],
        String::from("model_a"),
    );
    let b = Deck::new_with_prefix(
        vec![keyword("*NODE", 3), keyword("*PART", 4)],
        String::from("model_b"),
    );
    let d = a + b;
    assert_eq!(
        d.keywords,
        vec![keyword("*NODE", 1), keyword("*ELEMENT", 2), keyword("*NODE", 3), keyword("*PART", 4)]
    );
    assert_eq!(d.prefix, "model_a");
}

#[test]
fn merged_deck_keeps_left_prefix() {
    let a = Deck::new_with_prefix(vec![], String::from("left"));
    let b = Deck::new_with_prefix(vec![keyword("*NODE", 1)], String::from("right"));
    assert_eq!((a.clone() + b.clone()).prefix, "left");
    assert_eq!((b + a).prefix, "right");
    let c = Deck::new(vec![keyword("*NODE", 1)]);
    let d = Deck::new_with_prefix(vec![], String::from("right"));
    assert_eq!((c + d).prefix, "");
}

#[test]
fn deck_merge_is_not_commutative() {
    let a = Deck::new(vec![keyword("*NODE", 1)]);
    let b = Deck::new(vec![keyword("*NODE", 2)]);
    let ab = a.clone() + b.clone();
    let ba = b + a;
    assert_ne!(ab, ba);
    assert_eq!(ab.keywords[0], keyword("*NODE", 1));
    assert_eq!(ba.keywords[0], keyword("*NODE", 2));
}

#[test]
fn decks_of_one_repeated_block_merge_alike() {
    let x = keyword("*NODE", 1);
    let y = keyword("*NODE", 2);
    let a = Deck::new(vec![x.clone(), y.clone()]);
    let b = Deck::new(vec![x.clone(), y.clone(), x, y]);
    assert_eq!(a.clone() + b.clone(), b + a);
}

#[test]
fn deck_merge_is_associative() {
    let a = Deck::new_with_prefix(vec![keyword("*NODE", 1)], String::from("a"));
    let b = Deck::new_with_prefix(vec![keyword("*NODE", 2), keyword("*PART", 3)], String::from("b"));
    let c = Deck::new_with_prefix(vec![keyword("*SET", 4)], String::from("c"));
    let left = (a.clone() + b.clone()) + c.clone();
    let right = a + (b + c);
    assert_eq!(left, right);
    assert_eq!(left.keywords.len(), 4);
    assert_eq!(left.prefix, "a");
}

#[test]
fn empty_restores_the_blank_deck_after_anything() {
    let mut d = Deck::create_blank_deck();
    d = d + keyword("*NODE", 1);
    d = d + Deck::new_with_prefix(vec![keyword("*PART", 2)], String::from("other"));
    d.prefix = String::from("changed");
    d.keywords[0].comment();
    d.empty();
    assert_eq!(d, Deck::create_blank_deck());
    assert_eq!(d.keywords.len(), 0);
    assert_eq!(d.prefix.len(), 0);
    d.empty();
    assert_eq!(d, Deck::create_blank_deck());
}

#[test]
fn deck_equality_looks_at_keywords_and_prefix() {
    let base = Deck::new_with_prefix(vec![keyword("*NODE", 1), keyword("*PART", 2)], String::from("p"));
    assert_eq!(base, base.clone());
    assert_ne!(base, Deck::new_with_prefix(vec![keyword("*NODE", 1), keyword("*PART", 2)], String::from("q")));
    assert_ne!(base, Deck::new_with_prefix(vec![keyword("*PART", 2), keyword("*NODE", 1)], String::from("p")));
    assert_ne!(base, Deck::new_with_prefix(vec![keyword("*NODE", 1)], String::from("p")));
    assert_ne!(base, Deck::new_with_prefix(vec![keyword("*NODE", 1), keyword("*PART", 3)], String::from("p")));
}
