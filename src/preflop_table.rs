//! The preflop table: players in `[2, 10]` by the 169 hand classes, each
//! row the win/tie/lose fractions rounded to millionths.
use vstd::prelude::*;
use vstd::string::*;
use crate::cards::Card;
use crate::hand_class::{
    class_cards, all_classes, all_hand_classes, class_token_to_cards, lemma_all_classes_distinct,
    lemma_class_cards_round_trip,
};
use crate::simulate::{SimResult, same_text, simulate};
use crate::exact::{binom, exact_count, exact_heads_up_preflop};

verus! {

/// Number of hand classes.
pub const NUM_CLASSES: usize = 169;

/// Number of player counts a table can hold (2 to 10).
pub const NUM_PLAYER_COUNTS: usize = 9;

/// A row: win, tie and lose in millionths (the fractions rounded to 1e-6).
#[derive(Clone, Copy, Debug, PartialEq, Eq, Structural)]
pub struct PreflopRow {
    pub win: u32,
    pub tie: u32,
    pub lose: u32,
}

/// The table document: metadata, and a row per (players, class) present.
pub struct PreflopTable {
    pub version: String,
    pub generated_at: Option<String>,
    pub method: String,
    pub trials_per_hand: u64,
    pub players_min: Option<u32>,
    pub players_max: Option<u32>,
    /// Row of `players` and class `k` at `(players - 2) * 169 + k`.
    pub rows: Vec<Option<PreflopRow>>,
    /// Whether the document holds an entry for `players` at `players - 2`.
    pub present: Vec<bool>,
}

/// Position of a class text in the canonical list, if it is one.
pub open spec fn class_position(t: Seq<char>) -> int {
    choose|k: int| 0 <= k < all_classes().len() && all_classes()[k] == t
}

/// `count / total` rounded to millionths, halves up.
pub open spec fn ppm(count: int, total: int) -> int {
    (count * 2_000_000 + total) / (2 * total)
}

impl PreflopTable {
    pub open spec fn wf(&self) -> bool {
        self.rows@.len() == NUM_CLASSES * NUM_PLAYER_COUNTS && self.present@.len()
            == NUM_PLAYER_COUNTS
    }

    /// The row of `players` and class position `k`.
    pub open spec fn row(&self, players: int, k: int) -> Option<PreflopRow> {
        self.rows@[(players - 2) * 169 + k]
    }

    /// Whether the document holds an entry for `players`.
    pub open spec fn has(&self, players: int) -> bool {
        2 <= players <= 10 && self.present@[players - 2]
    }

    /// An empty table with the given metadata.
    pub fn new(
        version: String,
        generated_at: Option<String>,
        method: String,
        trials_per_hand: u64,
        players_min: Option<u32>,
        players_max: Option<u32>,
    ) -> (t: PreflopTable)
        ensures
            t.wf(),
            t.version == version,
            t.generated_at == generated_at,
            t.method == method,
            t.trials_per_hand == trials_per_hand,
            t.players_min == players_min,
            t.players_max == players_max,
            forall|p: int, k: int| 2 <= p <= 10 && 0 <= k < 169 ==> t.row(p, k) is None,
            forall|p: int| !t.has(p),
    {
        let rows: Vec<Option<PreflopRow>> = vec![None; NUM_CLASSES * NUM_PLAYER_COUNTS];
        let present: Vec<bool> = vec![false; NUM_PLAYER_COUNTS];
        let t = PreflopTable {
            version,
            generated_at,
            method,
            trials_per_hand,
            players_min,
            players_max,
            rows,
            present,
        };
        assert forall|p: int, k: int| 2 <= p <= 10 && 0 <= k < 169 implies t.row(p, k) is None by {
            assert(0 <= (p - 2) * 169 + k < 1521) by (nonlinear_arith)
                requires
                    2 <= p <= 10,
                    0 <= k < 169,
            ;
        }
        t
    }

    /// The trial count behind each row.
    pub fn trials_per_hand(&self) -> (r: u64)
        ensures
            r == self.trials_per_hand,
    {
        self.trials_per_hand
    }

    /// Whether the document holds an entry for `players`.
    pub fn has_players(&self, players: u32) -> (r: bool)
        requires
            self.wf(),
        ensures
            r == self.has(players as int),
    {
        if players < 2 || players > 10 {
            return false;
        }
        self.present[(players - 2) as usize]
    }

    /// Records that the document holds an entry for `players`; a count
    /// outside `[2, 10]` is ignored.
    pub fn add_players(&mut self, players: u32)
        requires
            old(self).wf(),
        ensures
            final(self).wf(),
            final(self).rows == old(self).rows,
            forall|p: int| #[trigger] final(self).has(p) == (old(self).has(p) || (p == players
                && 2 <= p <= 10)),
            final(self).trials_per_hand == old(self).trials_per_hand,
    {
        if 2 <= players && players <= 10 {
            self.present.set((players - 2) as usize, true);
        }
    }

    /// Sets the row of `players` and class position `k`.
    pub fn set_row(&mut self, players: u32, k: usize, row: PreflopRow)
        requires
            old(self).wf(),
            2 <= players <= 10,
            k < NUM_CLASSES,
        ensures
            final(self).wf(),
            final(self).row(players as int, k as int) == Some(row),
            forall|p: int, q: int|
                2 <= p <= 10 && 0 <= q < 169 && (p != players || q != k) ==> final(self).row(p, q)
                    == old(self).row(p, q),
            forall|p: int| #[trigger] final(self).has(p) == (old(self).has(p) || p == players),
            final(self).trials_per_hand == old(self).trials_per_hand,
            final(self).version == old(self).version,
            final(self).method == old(self).method,
            final(self).generated_at == old(self).generated_at,
            final(self).players_min == old(self).players_min,
            final(self).players_max == old(self).players_max,
    {
        let pos = (players as usize - 2) * NUM_CLASSES + k;
        self.rows.set(pos, Some(row));
        self.present.set((players - 2) as usize, true);
        assert forall|p: int, q: int|
            2 <= p <= 10 && 0 <= q < 169 && (p != players || q != k) implies final(self).row(p, q)
            == old(self).row(p, q) by {
            assert((p - 2) * 169 + q != (players - 2) * 169 + k) by (nonlinear_arith)
                requires
                    2 <= p <= 10,
                    0 <= q < 169,
                    0 <= k < 169,
                    p != players || q != k,
            ;
            assert(0 <= (p - 2) * 169 + q < 1521) by (nonlinear_arith)
                requires
                    2 <= p <= 10,
                    0 <= q < 169,
            ;
        }
    }

    /// Sets the row of `players` and a class given by its text; `false`
    /// (and no change) when either is not in the table's domain.
    pub fn insert(&mut self, players: u32, hand_class: &str, row: PreflopRow) -> (ok: bool)
        requires
            old(self).wf(),
        ensures
            final(self).wf(),
            ok == (2 <= players <= 10 && all_classes().contains(hand_class@)),
            ok ==> final(self).row(players as int, class_position(hand_class@)) == Some(row),
            !ok ==> *final(self) == *old(self),
    {
        if players < 2 || players > 10 {
            return false;
        }
        match class_index(hand_class) {
            Some(k) => {
                self.set_row(players, k, row);
                true
            },
            None => false,
        }
    }

    /// The row of `players` and a class text; `None` when missing.
    pub fn get(&self, players: u32, hand_class: &str) -> (r: Option<PreflopRow>)
        requires
            self.wf(),
        ensures
            r == (if 2 <= players <= 10 && all_classes().contains(hand_class@) {
                self.row(players as int, class_position(hand_class@))
            } else {
                None
            }),
    {
        if players < 2 || players > 10 {
            return None;
        }
        match class_index(hand_class) {
            Some(k) => self.rows[(players as usize - 2) * NUM_CLASSES + k],
            None => None,
        }
    }

    /// The rows held for `players`, as (class, row) in canonical order.
    pub fn players_rows(&self, players: u32) -> (r: Vec<(String, PreflopRow)>)
        requires
            self.wf(),
            2 <= players <= 10,
        ensures
            forall|i: int| 0 <= i < r@.len() ==> {
                let k = class_position(#[trigger] r@[i].0@);
                &&& all_classes().contains(r@[i].0@)
                &&& self.row(players as int, k) == Some(r@[i].1)
            },
            forall|k: int|
                0 <= k < 169 && #[trigger] self.row(players as int, k) is Some ==> exists|i: int|
                    0 <= i < r@.len() && r@[i].0@ == all_classes()[k],
    {
        let classes = all_hand_classes();
        let mut out: Vec<(String, PreflopRow)> = Vec::new();
        let mut k: usize = 0;
        proof {
            lemma_all_classes_distinct();
        }
        while k < NUM_CLASSES
            invariant
                self.wf(),
                2 <= players <= 10,
                0 <= k <= 169,
                classes@.map_values(|s: String| s@) == all_classes(),
                all_classes().len() == 169,
                forall|i: int, j: int|
                    0 <= i < j < all_classes().len() ==> all_classes()[i] != all_classes()[j],
                forall|i: int| 0 <= i < out@.len() ==> {
                    let q = class_position(#[trigger] out@[i].0@);
                    &&& all_classes().contains(out@[i].0@)
                    &&& self.row(players as int, q) == Some(out@[i].1)
                },
                forall|q: int|
                    0 <= q < k && #[trigger] self.row(players as int, q) is Some ==> exists|i: int|
                        0 <= i < out@.len() && out@[i].0@ == all_classes()[q],
            decreases 169 - k,
        {
            let pos = (players as usize - 2) * NUM_CLASSES + k;
            match self.rows[pos] {
                Some(row) => {
                    let name = classes[k].clone();
                    proof {
                        assert(all_classes()[k as int] == classes@[k as int]@);
                        lemma_position_unique(k as int);
                    }
                    let ghost before = out@;
                    out.push((name, row));
                    proof {
                        assert(out@[before.len() as int].0@ == all_classes()[k as int]);
                        assert forall|q: int|
                            0 <= q < k + 1 && #[trigger] self.row(players as int, q) is Some implies exists|i: int|
                                0 <= i < out@.len() && out@[i].0@ == all_classes()[q] by {
                            if q < k {
                                let i = choose|i: int| 0 <= i < before.len() && before[i].0@ == all_classes()[q];
                                assert(out@[i] == before[i]);
                            } else {
                                assert(out@[before.len() as int].0@ == all_classes()[q]);
                            }
                        }
                    }
                },
                None => {},
            }
            k += 1;
        }
        out
    }
}

proof fn lemma_position_unique(k: int)
    requires
        0 <= k < all_classes().len(),
    ensures
        all_classes().contains(all_classes()[k]),
        class_position(all_classes()[k]) == k,
{
    lemma_all_classes_distinct();
    let t = all_classes()[k];
    assert(all_classes()[k] == t);
    let q = class_position(t);
    assert(0 <= q < all_classes().len() && all_classes()[q] == t);
}

/// Position of a class text in the canonical list; `None` if it is not a
/// class.
pub fn class_index(t: &str) -> (r: Option<usize>)
    ensures
        r is Some <==> all_classes().contains(t@),
        r is Some ==> r->Some_0 < NUM_CLASSES && r->Some_0 == class_position(t@),
{
    let classes = all_hand_classes();
    proof {
        lemma_all_classes_distinct();
    }
    let mut k: usize = 0;
    while k < NUM_CLASSES
        invariant
            0 <= k <= 169,
            classes@.map_values(|s: String| s@) == all_classes(),
            all_classes().len() == 169,
            forall|q: int| 0 <= q < k ==> all_classes()[q] != t@,
        decreases 169 - k,
    {
        assert(all_classes()[k as int] == classes@[k as int]@);
        if same_text(classes[k].as_str(), t) {
            proof {
                lemma_position_unique(k as int);
            }
            return Some(k);
        }
        k += 1;
    }
    None
}

/// `count / total` in millionths, rounded half up.
pub fn to_ppm(count: u64, total: u64) -> (r: u32)
    requires
        total >= 1,
        count <= total,
    ensures
        r == ppm(count as int, total as int),
        r <= 1_000_000,
{
    let c = count as u128;
    let t = total as u128;
    proof {
        let ci = c as int;
        let ti = t as int;
        assert(0 <= (ci * 2_000_000 + ti) / (2 * ti) <= 1_000_000) by (nonlinear_arith)
            requires
                0 <= ci <= ti,
                ti >= 1,
        ;
    }
    ((c * 2_000_000 + t) / (2 * t)) as u32
}

/// The row of a simulation's counts.
pub fn row_of_result(r: &SimResult) -> (row: PreflopRow)
    requires
        r.trials >= 1,
        r.win + r.tie + r.lose == r.trials,
    ensures
        row.win == ppm(r.win as int, r.trials as int),
        row.tie == ppm(r.tie as int, r.trials as int),
        row.lose == ppm(r.lose as int, r.trials as int),
{
    PreflopRow {
        win: to_ppm(r.win, r.trials),
        tie: to_ppm(r.tie, r.trials),
        lose: to_ppm(r.lose, r.trials),
    }
}

/// Whether a row is the rounding of some counts of `trials` trials.
pub open spec fn rounded_counts(row: PreflopRow, trials: int) -> bool {
    exists|w: int, t: int, l: int|
        #![trigger ppm(w, trials), ppm(t, trials), ppm(l, trials)]
        0 <= w && 0 <= t && 0 <= l && w + t + l == trials && row.win == ppm(w, trials) && row.tie
            == ppm(t, trials) && row.lose == ppm(l, trials)
}

/// Builds the table by Monte Carlo: for each class and each player count in
/// `[players_min, players_max]`, the class's representative holding against
/// an empty board, `trials` trials, unseeded.
pub fn build_table_monte_carlo(
    players_min: u32,
    players_max: u32,
    trials: u64,
    generated_at: Option<String>,
) -> (t: PreflopTable)
    requires
        2 <= players_min <= players_max <= 10,
        trials >= 1,
    ensures
        t.wf(),
        t.version@ == "v1"@,
        t.method@ == "monte_carlo"@,
        t.trials_per_hand == trials,
        t.players_min == Some(players_min),
        t.players_max == Some(players_max),
        t.generated_at == generated_at,
        forall|p: int, k: int|
            players_min <= p <= players_max && 0 <= k < 169 ==> #[trigger] t.row(p, k) is Some
                && rounded_counts(t.row(p, k)->Some_0, trials as int),
        forall|p: int, k: int|
            2 <= p <= 10 && !(players_min <= p <= players_max) && 0 <= k < 169
                ==> #[trigger] t.row(p, k) is None,
        forall|p: int| #[trigger] t.has(p) <==> players_min <= p <= players_max,
{
    let mut table = PreflopTable::new(
        String::from_str("v1"),
        generated_at,
        String::from_str("monte_carlo"),
        trials,
        Some(players_min),
        Some(players_max),
    );
    let classes = all_hand_classes();
    let board: Vec<Card> = Vec::new();
    proof {
        lemma_all_classes_distinct();
    }
    let mut k: usize = 0;
    while k < NUM_CLASSES
        invariant
            table.wf(),
            2 <= players_min <= players_max <= 10,
            trials >= 1,
            table.version@ == "v1"@,
            table.method@ == "monte_carlo"@,
            table.trials_per_hand == trials,
            table.players_min == Some(players_min),
            table.players_max == Some(players_max),
            table.generated_at == generated_at,
            board@.len() == 0,
            0 <= k <= 169,
            classes@.map_values(|s: String| s@) == all_classes(),
            all_classes().len() == 169,
            forall|p: int, q: int|
                players_min <= p <= players_max && 0 <= q < k ==> #[trigger] table.row(p, q) is Some
                    && rounded_counts(table.row(p, q)->Some_0, trials as int),
            forall|p: int, q: int|
                2 <= p <= 10 && !(players_min <= p <= players_max) && 0 <= q < 169
                    ==> #[trigger] table.row(p, q) is None,
            forall|p: int| #[trigger] table.has(p) <==> (k > 0 && players_min <= p <= players_max),
        decreases 169 - k,
    {
        proof {
            lemma_class_cards_round_trip(k as int);
            assert(all_classes()[k as int] == classes@[k as int]@);
        }
        let cards = match class_token_to_cards(classes[k].as_str()) {
            Some(c) => c,
            None => {
                // Unreachable: every canonical class has a representative.
                assert(false);
                return table;
            },
        };
        let mut p: u32 = players_min;
        while p <= players_max
            invariant
                table.wf(),
                2 <= players_min <= p,
                players_max <= 10,
                p <= players_max + 1,
                trials >= 1,
                table.version@ == "v1"@,
                table.method@ == "monte_carlo"@,
                table.trials_per_hand == trials,
                table.players_min == Some(players_min),
                table.players_max == Some(players_max),
                table.generated_at == generated_at,
                board@.len() == 0,
                0 <= k < 169,
                cards@.len() == 2,
                forall|pp: int, q: int|
                    players_min <= pp <= players_max && 0 <= q < k ==> #[trigger] table.row(pp, q)
                        is Some && rounded_counts(table.row(pp, q)->Some_0, trials as int),
                forall|pp: int, q: int|
                    2 <= pp <= 10 && !(players_min <= pp <= players_max) && 0 <= q < 169
                        ==> #[trigger] table.row(pp, q) is None,
                forall|pp: int| players_min <= pp < p ==> #[trigger] table.row(pp, k as int) is Some
                    && rounded_counts(table.row(pp, k as int)->Some_0, trials as int),
                forall|pp: int| #[trigger] table.has(pp) <==> ((k > 0 || pp < p) && players_min
                    <= pp <= players_max),
            decreases players_max + 1 - p,
        {
            let result = simulate(p, cards.as_slice(), board.as_slice(), trials, None);
            let row = row_of_result(&result);
            assert(rounded_counts(row, trials as int)) by {
                let w = result.win as int;
                let tt = result.tie as int;
                let l = result.lose as int;
                assert(row.win == ppm(w, trials as int) && row.tie == ppm(tt, trials as int)
                    && row.lose == ppm(l, trials as int));
            }
            table.set_row(p, k, row);
            p += 1;
        }
        k += 1;
    }
    table
}

/// States enumerated per hand in exact mode: 1225 opponent holdings times
/// 1,712,304 boards.
pub const EXACT_STATES: u64 = 2_097_572_400;

/// The exact heads-up row of the holding `a, b`.
pub open spec fn exact_row(a: Card, b: Card) -> PreflopRow {
    let h0 = a.index() as usize;
    let h1 = b.index() as usize;
    PreflopRow {
        win: ppm(exact_count(h0, h1, 0) as int, EXACT_STATES as int) as u32,
        tie: ppm(exact_count(h0, h1, 1) as int, EXACT_STATES as int) as u32,
        lose: ppm(exact_count(h0, h1, 2) as int, EXACT_STATES as int) as u32,
    }
}

/// The exact row of class position `k`: that of its representative holding.
pub open spec fn exact_class_row(k: int) -> PreflopRow {
    let cs = class_cards(all_classes()[k])->Some_0;
    exact_row(cs.0, cs.1)
}

/// Builds the heads-up table exactly: each class's representative holding
/// against every opponent holding and board. `trials_per_hand` is the number
/// of states enumerated per class.
pub fn build_table_exact(generated_at: Option<String>) -> (r: Result<PreflopTable, String>)
    ensures
        r is Ok,
        r is Ok ==> {
            let t = r->Ok_0;
            &&& t.wf()
            &&& t.trials_per_hand == binom(50, 2) * binom(48, 5)
            &&& forall|k: int| 0 <= k < 169 ==> #[trigger] t.row(2, k) == Some(exact_class_row(k))
            &&& t.version@ == "v1"@
            &&& t.method@ == "exact"@
            &&& t.players_min == Some(2u32)
            &&& t.players_max == Some(2u32)
            &&& t.generated_at == generated_at
            &&& forall|k: int| 0 <= k < 169 ==> #[trigger] t.row(2, k) is Some
            &&& forall|p: int| #[trigger] t.has(p) <==> p == 2
        },
{
    let mut table = PreflopTable::new(
        String::from_str("v1"),
        generated_at,
        String::from_str("exact"),
        0,
        Some(2),
        Some(2),
    );
    let classes = all_hand_classes();
    proof {
        lemma_all_classes_distinct();
    }
    let mut k: usize = 0;
    while k < NUM_CLASSES
        invariant
            table.wf(),
            table.version@ == "v1"@,
            table.method@ == "exact"@,
            table.players_min == Some(2u32),
            table.players_max == Some(2u32),
            table.generated_at == generated_at,
            0 <= k <= 169,
            classes@.map_values(|s: String| s@) == all_classes(),
            all_classes().len() == 169,
            forall|q: int| 0 <= q < k ==> #[trigger] table.row(2, q) is Some,
            forall|q: int| 0 <= q < k ==> #[trigger] table.row(2, q) == Some(exact_class_row(q)),
            k > 0 ==> table.trials_per_hand == binom(50, 2) * binom(48, 5),
            forall|p: int| #[trigger] table.has(p) <==> (k > 0 && p == 2),
        decreases 169 - k,
    {
        proof {
            lemma_class_cards_round_trip(k as int);
            assert(all_classes()[k as int] == classes@[k as int]@);
        }
        let cards = match class_token_to_cards(classes[k].as_str()) {
            Some(c) => c,
            None => {
                // Unreachable: every canonical class has a representative.
                assert(false);
                return Err(String::from_str("invalid hand class"));
            },
        };
        assert(cards@[0].wf() && cards@[1].wf() && cards@[0].index() != cards@[1].index());
        let result = match exact_heads_up_preflop(cards.as_slice()) {
            Ok(r) => r,
            Err(e) => return Err(e),
        };
        let row = row_of_result(&result);
        assert(row == exact_class_row(k as int));
        let ghost before = table;
        table.trials_per_hand = result.trials;
        assert(table.rows == before.rows && table.present == before.present);
        assert(forall|q: int| 0 <= q < k ==> #[trigger] table.row(2, q) == before.row(2, q));
        assert(forall|p: int| #[trigger] table.has(p) == before.has(p));
        table.set_row(2, k, row);
        k += 1;
    }
    Ok(table)
}

} // verus!
