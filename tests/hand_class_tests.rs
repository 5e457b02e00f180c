use texas_equity::cards::{parse_card, Card};
use texas_equity::hand_class::{all_hand_classes, class_token_to_cards, hand_class_to_cards, to_hand_class};

#[test]
fn test_hand_class() {
    let a = Card { rank: 12, suit: 0 };
    let k = Card { rank: 11, suit: 1 };
    assert_eq!(to_hand_class(&[a, k]), Some("AKo".into()));
    assert_eq!(to_hand_class(&[k, a]), Some("AKo".into()));
    let a2 = Card { rank: 12, suit: 1 };
    assert_eq!(to_hand_class(&[a, a2]), Some("AA".into()));
}

#[test]
fn suited_and_wrong_count() {
    let h = [parse_card("7d").unwrap(), parse_card("9d").unwrap()];
    assert_eq!(to_hand_class(&h), Some("97s".into()));
    assert_eq!(to_hand_class(&h[..1]), None);
}

#[test]
fn all_classes_order_and_count() {
    let v = all_hand_classes();
    assert_eq!(v.len(), 169);
    let mut s = v.clone();
    s.sort();
    s.dedup();
    assert_eq!(s.len(), 169);
    assert_eq!(v[0], "AA");
    assert_eq!(v[12], "22");
    assert_eq!(v[13], "AKs");
    assert_eq!(v[14], "AKo");
    assert_eq!(v[168], "32o");
}

#[test]
fn representatives() {
    let [x, y] = hand_class_to_cards("AA").unwrap();
    assert_eq!((x.rank, x.suit, y.rank, y.suit), (12, 0, 12, 1));
    let [x, y] = hand_class_to_cards(" AKs ").unwrap();
    assert_eq!((x.rank, x.suit, y.rank, y.suit), (12, 0, 11, 0));
    let [x, y] = hand_class_to_cards("AKo").unwrap();
    assert_eq!((x.rank, x.suit, y.rank, y.suit), (12, 0, 11, 1));
    assert!(hand_class_to_cards("AK").is_none());
    assert!(hand_class_to_cards("AKx").is_none());
    assert!(hand_class_to_cards("KAs").is_none());
    assert!(class_token_to_cards("A").is_none());
}

#[test]
fn class_round_trips() {
    for c in all_hand_classes() {
        let cards = hand_class_to_cards(&c).unwrap();
        assert_eq!(to_hand_class(&cards), Some(c.clone()));
    }
    let h = [parse_card("Th").unwrap(), parse_card("Jc").unwrap()];
    let c = to_hand_class(&h).unwrap();
    let cards = hand_class_to_cards(&c).unwrap();
    assert_eq!(to_hand_class(&cards), Some(c));
}
