use texas_equity::cards::parse_card;
use texas_equity::exact::exact_heads_up_preflop;
use texas_equity::preflop_table::{build_table_monte_carlo, class_index, to_ppm, PreflopRow, PreflopTable};
use texas_equity::request::{answer_equity, answer_preflop_table};

fn empty_table() -> PreflopTable {
    PreflopTable::new("v1".to_string(), None, "monte_carlo".to_string(), 1000, Some(2), Some(2))
}

#[test]
fn ppm_rounding() {
    assert_eq!(to_ppm(1, 3), 333_333);
    assert_eq!(to_ppm(2, 3), 666_667);
    assert_eq!(to_ppm(1, 2_000_000), 1);
    assert_eq!(to_ppm(0, 5), 0);
    assert_eq!(to_ppm(5, 5), 1_000_000);
}

#[test]
fn insert_and_get() {
    let mut t = empty_table();
    let row = PreflopRow { win: 850_000, tie: 5_000, lose: 145_000 };
    assert!(t.insert(2, "AA", row));
    assert!(!t.insert(11, "AA", row));
    assert!(!t.insert(2, "AAs", row));
    assert_eq!(t.get(2, "AA"), Some(row));
    assert_eq!(t.get(3, "AA"), None);
    assert_eq!(t.get(2, "KK"), None);
    assert_eq!(class_index("AKo"), Some(14));
    assert_eq!(class_index("zz"), None);
    assert!(t.has_players(2));
    assert!(!t.has_players(3));
}

#[test]
fn table_round_trip() {
    let t = build_table_monte_carlo(2, 2, 10_000, None);
    let row = t.get(2, "AA").unwrap();
    assert!((830_000..=870_000).contains(&row.win), "win {}", row.win);
    assert_eq!(t.trials_per_hand(), 10_000);
    assert!(t.get(3, "AA").is_none());
    assert_eq!(t.players_rows(2).len(), 169);
}

#[test]
fn equity_errors() {
    let hero = vec!["As".to_string(), "Kd".to_string()];
    let e = answer_equity(None, 1, &hero, &vec![], "standard", None).err().unwrap();
    assert_eq!(e.error, "invalid_players");
    let e = answer_equity(None, 2, &vec!["As".to_string()], &vec![], "standard", None).err().unwrap();
    assert_eq!(e.error, "invalid_hero");
    let e = answer_equity(None, 2, &vec!["As".to_string(), "Kx".to_string()], &vec![], "fast", None).err().unwrap();
    assert_eq!(e.error, "invalid_suit");
    assert_eq!(e.card, Some("Kx".to_string()));
    assert!(e.details.is_some());
    let e = answer_equity(None, 2, &hero, &vec!["2c".to_string()], "fast", None).err().unwrap();
    assert_eq!(e.error, "invalid_board_length");
    let board = vec!["2c".to_string(), "As".to_string(), "3c".to_string()];
    let e = answer_equity(None, 2, &hero, &board, "fast", None).err().unwrap();
    assert_eq!(e.error, "duplicate_cards");
    assert_eq!(e.card, Some("As".to_string()));
}

#[test]
fn equity_uses_table_when_hit() {
    let mut t = empty_table();
    let row = PreflopRow { win: 650_000, tie: 20_000, lose: 330_000 };
    assert!(t.insert(2, "AKo", row));
    let hero = vec!["As".to_string(), "Kd".to_string()];
    let a = answer_equity(Some(&t), 2, &hero, &vec![], "standard", None).ok().unwrap();
    assert_eq!(a.method, "preflop_table");
    assert_eq!((a.win, a.tie, a.lose, a.trials, a.elapsed_ms), (650_000, 20_000, 330_000, 1000, 0));
    assert!(a.note.is_some());
    let a = answer_equity(Some(&t), 2, &hero, &vec![], "fast", Some(3)).ok().unwrap();
    assert!(a.note.is_some());
    let board = vec!["2c".to_string(), "7h".to_string(), "9d".to_string()];
    let a = answer_equity(Some(&t), 2, &hero, &board, "fast", Some(3)).ok().unwrap();
    assert_eq!(a.method, "monte_carlo");
    assert_eq!(a.trials, 50_000);
    let s = a.win as u64 + a.tie as u64 + a.lose as u64;
    assert!((999_998..=1_000_002).contains(&s));
}

#[test]
fn preflop_table_query() {
    let mut t = empty_table();
    assert!(t.insert(2, "72o", PreflopRow { win: 1, tie: 2, lose: 3 }));
    assert_eq!(answer_preflop_table(None, Some(2)).err().unwrap().error, "preflop_table_not_generated");
    assert_eq!(answer_preflop_table(Some(&t), None).err().unwrap().error, "invalid_players");
    assert_eq!(answer_preflop_table(Some(&t), Some(11)).err().unwrap().error, "invalid_players");
    assert_eq!(answer_preflop_table(Some(&t), Some(3)).err().unwrap().error, "preflop_table_missing_players");
    let (p, n, rows) = answer_preflop_table(Some(&t), Some(2)).ok().unwrap();
    assert_eq!((p, n, rows.len()), (2, 1000, 1));
    assert_eq!(rows[0].0, "72o");
    let _ = parse_card("As");
}

#[test]
fn exact_mode_rejects_bad_hero() {
    let a = parse_card("As").unwrap();
    assert_eq!(exact_heads_up_preflop(&[a]).err().unwrap(), "exact mode requires hero=2 cards");
    assert_eq!(exact_heads_up_preflop(&[a, a]).err().unwrap(), "duplicate hero cards");
}
