//! Request-level decisions of the equity service: input checks, the preflop
//! table short-cut, and the Monte Carlo fall-back.
use vstd::prelude::*;
use vstd::string::*;
use crate::cards::{
    Card, ValidationError, all_distinct, board_len_ok, card_text, parse_card_list,
    repeats_earlier, tokens_outcome, validate_input,
};
use crate::hand_class::{all_classes, class_of, to_hand_class};
use crate::preflop_table::{PreflopRow, PreflopTable, class_position, ppm, to_ppm};
use crate::simulate::{
    all_deals, deal_counts, job_of, lower_of, preset_trials, seeded_simulation, simulate,
    trials_for_preset,
};

verus! {

/// The answer to an equity request: fractions in millionths.
pub struct EquityAnswer {
    pub win: u32,
    pub tie: u32,
    pub lose: u32,
    pub trials: u64,
    pub elapsed_ms: u64,
    /// `preflop_table` or `monte_carlo`.
    pub method: String,
    pub note: Option<String>,
}

/// The texts of a list of strings.
pub open spec fn texts(v: Seq<String>) -> Seq<Seq<char>> {
    v.map_values(|t: String| t@)
}

/// The table's row for `players` and a class text, if any.
pub open spec fn table_lookup(t: PreflopTable, players: int, class: Seq<char>) -> Option<
    PreflopRow,
> {
    if 2 <= players <= 10 && all_classes().contains(class) {
        t.row(players, class_position(class))
    } else {
        None
    }
}

/// Whether the table answers a request with hero `hc` and board `bc`.
pub open spec fn table_hit(
    table: Option<&PreflopTable>,
    players: u32,
    hc: Seq<Card>,
    bc: Seq<Card>,
) -> bool {
    bc.len() == 0 && table is Some && table_lookup(
        *table->Some_0,
        players as int,
        class_of(hc[0], hc[1]),
    ) is Some
}

/// The request's seed as the simulator takes it.
pub open spec fn unsigned_seed(seed: Option<i64>) -> Option<u64> {
    match seed {
        Some(s) => Some(s as u64),
        None => None,
    }
}

/// What a successful answer holds, for valid hero `hc` and board `bc`.
pub open spec fn answer_ok(
    table: Option<&PreflopTable>,
    players: u32,
    hc: Seq<Card>,
    bc: Seq<Card>,
    preset: Seq<char>,
    seed: Option<i64>,
    a: EquityAnswer,
) -> bool {
    if table_hit(table, players, hc, bc) {
        let row = table_lookup(*table->Some_0, players as int, class_of(hc[0], hc[1]))->Some_0;
        &&& a.method@ == "preflop_table"@
        &&& a.win == row.win && a.tie == row.tie && a.lose == row.lose
        &&& a.trials == table->Some_0.trials_per_hand
        &&& a.elapsed_ms == 0
        &&& a.note is Some
    } else {
        let n = preset_trials(lower_of(preset));
        &&& a.method@ == "monte_carlo"@
        &&& a.note is None
        &&& a.trials == n
        &&& exists|w: nat, t: nat, l: nat|
            {
                &&& w + t + l == n
                &&& a.win == ppm(w as int, n as int)
                &&& a.tie == ppm(t as int, n as int)
                &&& a.lose == ppm(l as int, n as int)
                &&& exists|k: u64, ds: Seq<Seq<usize>>|
                    {
                        &&& k >= 1
                        &&& ds.len() == n
                        &&& all_deals(job_of(players, hc, bc, n, unsigned_seed(seed), k), ds)
                        &&& #[trigger] deal_counts(
                            job_of(players, hc, bc, n, unsigned_seed(seed), k),
                            ds,
                        ) == (w, t, l)
                    }
                &&& seed is Some ==> exists|k: u64|
                    k >= 1 && (w, t, l) == #[trigger] seeded_simulation(
                        players,
                        hc,
                        bc,
                        n,
                        seed->Some_0 as u64,
                        k,
                    )
            }
    }
}

fn error_of(error: &str, details: &str) -> (e: ValidationError)
    ensures
        e.error@ == error@,
        e.card is None,
        e.details is Some,
{
    ValidationError {
        error: String::from_str(error),
        details: Some(String::from_str(details)),
        card: None,
    }
}

proof fn lemma_tokens_len(ts: Seq<Seq<char>>)
    requires
        tokens_outcome(ts) is Ok,
    ensures
        tokens_outcome(ts)->Ok_0.len() == ts.len(),
    decreases ts.len(),
{
    if ts.len() > 0 {
        lemma_tokens_len(ts.drop_last());
    }
}

/// Answers an equity request: checks players (2 to 10) and the hero (two
/// cards), reads the cards, checks board length and duplicates, then answers
/// from the preflop table when the board is empty and the table has the
/// row, else by Monte Carlo with the preset's trial count.
pub fn answer_equity(
    table: Option<&PreflopTable>,
    players: u32,
    hero: &Vec<String>,
    board: &Vec<String>,
    preset: &str,
    seed: Option<i64>,
) -> (r: Result<EquityAnswer, ValidationError>)
    requires
        table is Some ==> table->Some_0.wf(),
    ensures
        !(2 <= players <= 10) ==> r is Err && r->Err_0.error@ == "invalid_players"@,
        2 <= players <= 10 && hero@.len() != 2 ==> r is Err && r->Err_0.error@
            == "invalid_hero"@,
        r is Err ==> r->Err_0.details is Some,
        2 <= players <= 10 && hero@.len() == 2 ==> match tokens_outcome(texts(hero@)) {
            Err((kind, tok)) => r is Err && r->Err_0.error@ == kind && r->Err_0.card is Some
                && r->Err_0.card->Some_0@ == tok,
            Ok(hc) => match tokens_outcome(texts(board@)) {
                Err((kind, tok)) => r is Err && r->Err_0.error@ == kind && r->Err_0.card is Some
                    && r->Err_0.card->Some_0@ == tok,
                Ok(bc) => {
                    &&& !board_len_ok(bc.len() as int) ==> r is Err && r->Err_0.error@
                        == "invalid_board_length"@ && r->Err_0.card is None
                    &&& board_len_ok(bc.len() as int) ==> (r is Ok <==> all_distinct(hc + bc))
                    &&& board_len_ok(bc.len() as int) && r is Err ==> r->Err_0.error@
                        == "duplicate_cards"@ && exists|k: int|
                        0 <= k < (hc + bc).len() && repeats_earlier(hc + bc, k) && (forall|m: int|
                            0 <= m < k ==> !repeats_earlier(hc + bc, m)) && r->Err_0.card is Some
                            && r->Err_0.card->Some_0@ == card_text((hc + bc)[k])
                    &&& r is Ok ==> answer_ok(table, players, hc, bc, preset@, seed, r->Ok_0)
                },
            },
        },
{
    if players < 2 || players > 10 {
        return Err(error_of("invalid_players", "players must be between 2 and 10"));
    }
    if hero.len() != 2 {
        return Err(error_of("invalid_hero", "hero must be exactly 2 cards"));
    }
    let hc = match parse_card_list(hero) {
        Ok(c) => c,
        Err(e) => return Err(e),
    };
    let bc = match parse_card_list(board) {
        Ok(c) => c,
        Err(e) => return Err(e),
    };
    proof {
        lemma_tokens_len(texts(hero@));
    }
    match validate_input(hc.as_slice(), bc.as_slice()) {
        Ok(()) => {},
        Err(e) => return Err(e),
    }
    if bc.len() == 0 {
        let class = match to_hand_class(hc.as_slice()) {
            Some(c) => c,
            None => {
                return Err(
                    error_of("invalid_hero", "could not derive hand class from hero cards"),
                );
            },
        };
        match table {
            Some(t) => {
                match t.get(players, class.as_str()) {
                    Some(row) => {
                        let note = Some(
                            String::from_str("preset and seed are ignored when using preflop table"),
                        );
                        return Ok(
                            EquityAnswer {
                                win: row.win,
                                tie: row.tie,
                                lose: row.lose,
                                trials: t.trials_per_hand(),
                                elapsed_ms: 0,
                                method: String::from_str("preflop_table"),
                                note,
                            },
                        );
                    },
                    None => {},
                }
            },
            None => {},
        }
    }
    let trials = trials_for_preset(preset);
    let seed_u: Option<u64> = match seed {
        Some(s) => Some(s as u64),
        None => None,
    };
    let res = simulate(players, hc.as_slice(), bc.as_slice(), trials, seed_u);
    let ghost w = res.win as nat;
    let ghost t = res.tie as nat;
    let ghost l = res.lose as nat;
    let a = EquityAnswer {
        win: to_ppm(res.win, trials),
        tie: to_ppm(res.tie, trials),
        lose: to_ppm(res.lose, trials),
        trials,
        elapsed_ms: res.elapsed_ms,
        method: String::from_str("monte_carlo"),
        note: None,
    };
    assert(w + t + l == trials && a.win == ppm(w as int, trials as int) && a.tie == ppm(
        t as int,
        trials as int,
    ) && a.lose == ppm(l as int, trials as int));
    Ok(a)
}

/// Answers a preflop-table query: the trial count behind the rows and the
/// rows held for `players`.
pub fn answer_preflop_table(table: Option<&PreflopTable>, players: Option<u32>) -> (r: Result<
    (u32, u64, Vec<(String, PreflopRow)>),
    ValidationError,
>)
    requires
        table is Some ==> table->Some_0.wf(),
    ensures
        r is Err ==> r->Err_0.details is Some,
        (players is None || !(2 <= players->Some_0 <= 10)) ==> r is Err && r->Err_0.error@
            == "invalid_players"@,
        players is Some && 2 <= players->Some_0 <= 10 && table is None ==> r is Err
            && r->Err_0.error@ == "preflop_table_not_generated"@,
        players is Some && 2 <= players->Some_0 <= 10 && table is Some ==> {
            let t = table->Some_0;
            let p = players->Some_0;
            &&& !t.has(p as int) ==> r is Err && r->Err_0.error@
                == "preflop_table_missing_players"@
            &&& t.has(p as int) ==> r is Ok && r->Ok_0.0 == p && r->Ok_0.1 == t.trials_per_hand
                && forall|i: int|
                0 <= i < r->Ok_0.2@.len() ==> all_classes().contains(#[trigger] r->Ok_0.2@[i].0@)
                && t.row(p as int, class_position(r->Ok_0.2@[i].0@)) == Some(r->Ok_0.2@[i].1)
            &&& t.has(p as int) ==> forall|k: int|
                0 <= k < 169 && #[trigger] t.row(p as int, k) is Some ==> exists|i: int|
                    0 <= i < r->Ok_0.2@.len() && r->Ok_0.2@[i].0@ == all_classes()[k]
        },
{
    let p = match players {
        Some(p) => p,
        None => return Err(error_of("invalid_players", "players query param required (2-10)")),
    };
    if p < 2 || p > 10 {
        return Err(error_of("invalid_players", "players must be between 2 and 10"));
    }
    let t = match table {
        Some(t) => t,
        None => return Err(error_of("preflop_table_not_generated", "preflop table not generated.")),
    };
    if !t.has_players(p) {
        return Err(
            error_of("preflop_table_missing_players", "no data for the requested players"),
        );
    }
    let rows = t.players_rows(p);
    Ok((p, t.trials_per_hand(), rows))
}

} // verus!
