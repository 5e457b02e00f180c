use texas_equity::cards::{
    build_deck, card_to_string, draw_indices, parse_card, parse_cards, validate_input, Card,
};
use texas_equity::rng::seeded_rng;

#[test]
fn test_parse_card() {
    let c = parse_card("As").unwrap();
    assert_eq!(c.rank, 12);
    assert_eq!(c.suit, 0);
    assert!(parse_card("1s").is_err());
}

#[test]
fn test_validate_hero_board() {
    let hero = vec![parse_card("As").unwrap(), parse_card("Kd").unwrap()];
    let board = vec![];
    assert!(validate_input(&hero, &board).is_ok());
    let board_bad = vec![parse_card("7h").unwrap()];
    assert!(validate_input(&hero, &board_bad).is_err());
}

#[test]
fn parse_accepts_ten_case_and_space() {
    let c = parse_card(" 10h ").unwrap();
    assert_eq!((c.rank, c.suit), (8, 1));
    let c = parse_card("qD").unwrap();
    assert_eq!((c.rank, c.suit), (10, 2));
    let c = parse_card("2c").unwrap();
    assert_eq!((c.rank, c.suit), (0, 3));
}

#[test]
fn ten_is_read_as_t() {
    assert_eq!(parse_card("10s").unwrap().rank, 8);
    assert_eq!(parse_card("10").unwrap_err().error, "invalid_card_length");
    assert_eq!(parse_card("1010").unwrap_err().error, "invalid_suit");
    assert_eq!(parse_card("1s").unwrap_err().error, "invalid_rank");
}

#[test]
fn parse_error_kinds() {
    let e = parse_card("Asx").unwrap_err();
    assert_eq!(e.error, "invalid_card_length");
    assert_eq!(e.card, Some("Asx".to_string()));
    let e = parse_card("Xs").unwrap_err();
    assert_eq!(e.error, "invalid_rank");
    let e = parse_card("Ax").unwrap_err();
    assert_eq!(e.error, "invalid_suit");
    assert_eq!(e.card, Some("Ax".to_string()));
}

#[test]
fn parse_cards_reads_all_or_first_error() {
    let cs = parse_cards("As  Kd\t7h").unwrap();
    assert_eq!(cs.len(), 3);
    assert_eq!((cs[2].rank, cs[2].suit), (5, 1));
    let e = parse_cards("As Zz Qq").unwrap_err();
    assert_eq!(e.error, "invalid_rank");
    assert_eq!(e.card, Some("Zz".to_string()));
    assert_eq!(parse_cards("").unwrap().len(), 0);
}

#[test]
fn index_bijection() {
    for i in 0..52usize {
        let c = Card::from_idx(i);
        assert_eq!(c.to_idx(), i);
        assert!(c.rank < 13 && c.suit < 4);
    }
    assert_eq!(Card { rank: 12, suit: 3 }.to_idx(), 51);
}

#[test]
fn card_strings() {
    assert_eq!(card_to_string(&Card { rank: 12, suit: 0 }), "As");
    assert_eq!(card_to_string(&Card { rank: 8, suit: 2 }), "Td");
    assert_eq!(card_to_string(&Card { rank: 0, suit: 3 }), "2c");
}

#[test]
fn validate_error_kinds() {
    let a = parse_card("As").unwrap();
    let k = parse_card("Kd").unwrap();
    let e = validate_input(&[a], &[]).unwrap_err();
    assert_eq!(e.error, "invalid_hero");
    assert!(e.card.is_none());
    let board: Vec<Card> = ["2c", "3c"].iter().map(|s| parse_card(s).unwrap()).collect();
    let e = validate_input(&[a, k], &board).unwrap_err();
    assert_eq!(e.error, "invalid_board_length");
    let board: Vec<Card> = ["2c", "Kd", "2c"].iter().map(|s| parse_card(s).unwrap()).collect();
    let e = validate_input(&[a, k], &board).unwrap_err();
    assert_eq!(e.error, "duplicate_cards");
    assert_eq!(e.card, Some("Kd".to_string()));
    for n in [0usize, 3, 4, 5] {
        let board: Vec<Card> = ["2c", "3c", "4c", "5c", "6c"][..n]
            .iter()
            .map(|s| parse_card(s).unwrap())
            .collect();
        assert!(validate_input(&[a, k], &board).is_ok());
    }
}

#[test]
fn deck_excludes_known_cards() {
    let known = vec![Card::from_idx(0), Card::from_idx(51), Card::from_idx(7)];
    let d = build_deck(&known);
    assert_eq!(d.len(), 49);
    assert!(!d.contains(&0) && !d.contains(&51) && !d.contains(&7));
    assert!(d.windows(2).all(|w| w[0] < w[1]));
    assert_eq!(build_deck(&[]).len(), 52);
}

#[test]
fn draw_is_seeded_and_a_permutation() {
    let mut deck: Vec<usize> = (0..52).collect();
    let mut out = vec![0usize; 5];
    let mut rng = seeded_rng(42);
    draw_indices(&mut deck, 5, &mut rng, &mut out);
    assert_eq!(&out[..], &deck[..5]);
    let mut sorted = deck.clone();
    sorted.sort();
    assert_eq!(sorted, (0..52).collect::<Vec<usize>>());
    let mut deck2: Vec<usize> = (0..52).collect();
    let mut out2 = vec![0usize; 5];
    let mut rng2 = seeded_rng(42);
    draw_indices(&mut deck2, 5, &mut rng2, &mut out2);
    assert_eq!(out, out2);
    // First draw from seed 42: state 42*1664525+1013904223, upper 32 bits
    // picks floor(u/2^32 * 52).
    let s: u64 = 42u64.wrapping_mul(1664525).wrapping_add(1013904223);
    let j = (((s >> 32) as u128 * 52) >> 32) as usize;
    let mut expect: Vec<usize> = (0..52).collect();
    expect.swap(0, j);
    assert_eq!(out[0], expect[0]);
}
