use texas_equity::cards::{parse_card, Card};
use texas_equity::simulate::{simulate_with_workers, trials_for_preset, SimResult};

fn cards(v: &[&str]) -> Vec<Card> {
    v.iter().map(|s| parse_card(s).unwrap()).collect()
}

fn run(players: u32, hero: &[&str], board: &[&str], trials: u64) -> SimResult {
    simulate_with_workers(players, &cards(hero), &cards(board), trials, Some(42), 1)
}

fn frac(n: u64, t: u64) -> f64 {
    n as f64 / t as f64
}

#[test]
fn counts_sum_to_trials() {
    for w in [1u64, 3, 8] {
        let r = simulate_with_workers(3, &cards(&["Qs", "Qh"]), &cards(&["2c", "7d", "9h", "Js"]), 1001, Some(7), w);
        assert_eq!(r.win + r.tie + r.lose, 1001);
        assert_eq!(r.trials, 1001);
    }
    let r = run(10, &["2c", "7d"], &["As", "Ks", "Qs", "Js", "Ts"], 1);
    assert_eq!(r.win + r.tie + r.lose, 1);
    let r = simulate_with_workers(2, &cards(&["As", "Ks"]), &[], 50, None, 4);
    assert_eq!(r.win + r.tie + r.lose, 50);
}

#[test]
fn seeded_runs_repeat() {
    let a = simulate_with_workers(4, &cards(&["As", "Kd"]), &cards(&["2c", "3c", "4h"]), 3000, Some(99), 3);
    let b = simulate_with_workers(4, &cards(&["As", "Kd"]), &cards(&["2c", "3c", "4h"]), 3000, Some(99), 3);
    assert_eq!((a.win, a.tie, a.lose), (b.win, b.tie, b.lose));
}

#[test]
fn swapped_hero_same_result() {
    let a = simulate_with_workers(3, &cards(&["As", "Kd"]), &[], 3000, Some(5), 2);
    let b = simulate_with_workers(3, &cards(&["Kd", "As"]), &[], 3000, Some(5), 2);
    assert_eq!((a.win, a.tie, a.lose), (b.win, b.tie, b.lose));
}

#[test]
fn board_lock_royal_always_ties() {
    let r = run(2, &["2c", "3d"], &["As", "Ks", "Qs", "Js", "Ts"], 500);
    assert_eq!(r.tie, 500);
}

#[test]
fn ak_suited_heads_up() {
    let r = run(2, &["As", "Ks"], &[], 200_000);
    let (w, t, l) = (frac(r.win, r.trials), frac(r.tie, r.trials), frac(r.lose, r.trials));
    assert!((0.65..=0.68).contains(&w), "win {}", w);
    assert!((0.01..=0.04).contains(&t), "tie {}", t);
    assert!((0.30..=0.33).contains(&l), "lose {}", l);
}

#[test]
fn presets() {
    assert_eq!(trials_for_preset("fast"), 50_000);
    assert_eq!(trials_for_preset("Standard"), 200_000);
    assert_eq!(trials_for_preset("HIGH"), 1_000_000);
    assert_eq!(trials_for_preset("turbo"), 200_000);
}
