use texas_equity::cards::{parse_card, Card};
use texas_equity::evaluate::{best_hand_score_7, best_hand_score_7_indices};

fn hand(cards: &[&str]) -> Vec<Card> {
    cards.iter().map(|s| parse_card(s).unwrap()).collect()
}

fn score(cards: &[&str]) -> u32 {
    best_hand_score_7(&hand(cards))
}

#[test]
fn test_royal_flush_beats_high_card() {
    let royal = hand(&["As", "Ks", "Qs", "Js", "Ts", "2c", "3d"]);
    let high = hand(&["Ah", "Kd", "Qc", "Jh", "Td", "2s", "3c"]);
    assert!(best_hand_score_7(&royal) < best_hand_score_7(&high));
}

#[test]
fn category_codes() {
    assert_eq!(score(&["As", "Ks", "Qs", "Js", "Ts", "2c", "3d"]) >> 24, 0);
    assert_eq!(score(&["As", "Ah", "Ad", "Ac", "Ks", "2c", "3d"]) >> 24, 1);
    assert_eq!(score(&["As", "Ah", "Ad", "Kc", "Ks", "2c", "3d"]) >> 24, 2);
    assert_eq!(score(&["As", "9s", "7s", "5s", "3s", "2c", "Kd"]) >> 24, 3);
    assert_eq!(score(&["9s", "8h", "7d", "6c", "5s", "2c", "Kd"]) >> 24, 4);
    assert_eq!(score(&["As", "Ah", "Ad", "9c", "7s", "2c", "3d"]) >> 24, 5);
    assert_eq!(score(&["As", "Ah", "Kd", "Kc", "7s", "2c", "3d"]) >> 24, 6);
    assert_eq!(score(&["As", "Ah", "Kd", "9c", "7s", "2c", "3d"]) >> 24, 7);
    assert_eq!(score(&["Ah", "Kd", "Qc", "Jh", "9d", "2s", "3c"]) >> 24, 8);
}

#[test]
fn exact_royal_flush_score() {
    // Category 0, kicker strengths A,K,Q,J,T = 0,1,2,3,4.
    assert_eq!(score(&["As", "Ks", "Qs", "Js", "Ts", "2c", "3d"]), 0x0000_1234);
}

#[test]
fn wheel_and_broadway_are_straights() {
    let wheel = score(&["Ah", "2d", "3c", "4s", "5h", "9c", "Jd"]);
    assert_eq!(wheel >> 24, 4);
    // Five-high: strengths 5,4,3,2 and the low ace last.
    assert_eq!(wheel & 0xFFFFF, 0x9ABCD);
    let six_high = score(&["6h", "2d", "3c", "4s", "5h", "9c", "Jd"]);
    assert!(six_high < wheel);
    let broadway = score(&["Ah", "Kd", "Qc", "Js", "Th", "3c", "2d"]);
    assert_eq!(broadway >> 24, 4);
    assert!(broadway < six_high);
}

#[test]
fn quads_kicker_breaks_tie() {
    let aces = score(&["As", "Ah", "Ad", "Ac", "9s", "2c", "3d"]);
    let kings = score(&["Ks", "Kh", "Kd", "Kc", "9s", "2c", "3d"]);
    assert!(aces < kings);
}

#[test]
fn score_ignores_card_order() {
    let a = hand(&["As", "Ah", "Kd", "9c", "7s", "2c", "3d"]);
    let mut b = a.clone();
    b.reverse();
    let mut c = a.clone();
    c.swap(0, 6);
    c.swap(2, 4);
    assert_eq!(best_hand_score_7(&a), best_hand_score_7(&b));
    assert_eq!(best_hand_score_7(&a), best_hand_score_7(&c));
}

#[test]
fn pair_rank_before_kickers() {
    // Nines with a jack beat fours with an ace-king.
    let nines = score(&["9s", "9h", "Jd", "4c", "2s", "7c", "3d"]);
    let fours = score(&["4s", "4h", "Ad", "Kc", "2s", "7c", "3d"]);
    assert!(nines < fours);
    // Two pair: aces and twos beat kings and queens.
    let a2 = score(&["As", "Ah", "2d", "2c", "7s", "8c", "9d"]);
    let kq = score(&["Ks", "Kh", "Qd", "Qc", "7s", "8c", "3d"]);
    assert!(a2 < kq);
}

#[test]
fn wrong_length_scores_max() {
    assert_eq!(best_hand_score_7(&hand(&["As", "Ah"])), u32::MAX);
}

#[test]
fn indices_form_agrees() {
    let h = hand(&["As", "Ah", "Kd", "9c", "7s", "2c", "3d"]);
    let mut idx = [0usize; 7];
    for (i, c) in h.iter().enumerate() {
        idx[i] = c.to_idx();
    }
    assert_eq!(best_hand_score_7_indices(&idx), best_hand_score_7(&h));
}

#[test]
fn straight_flush_beats_high_card_hands() {
    let sf = score(&["9h", "8h", "7h", "6h", "5h", "Ac", "Kd"]);
    let hc = score(&["Ah", "Kd", "Qc", "Jh", "9d", "7s", "5c"]);
    assert!(sf < hc);
}
