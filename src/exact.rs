//! Exact heads-up preflop equity: every opponent holding against every
//! board from the remaining deck.
use vstd::prelude::*;
use vstd::string::*;
use crate::cards::Card;
use crate::evaluate::best_hand_score_7_indices;
use crate::evaluate::best_score;
use crate::simulate::{SimResult, lemma_hero_score_swap, outcome};

verus! {

/// The binomial coefficient `n choose k`.
pub open spec fn binom(n: nat, k: nat) -> nat
    decreases n,
{
    if k == 0 {
        1
    } else if n == 0 {
        0
    } else {
        binom((n - 1) as nat, (k - 1) as nat) + binom((n - 1) as nat, k)
    }
}

proof fn lemma_binom_small(n: nat, k: nat)
    requires
        n < k,
    ensures
        binom(n, k) == 0,
    decreases n,
{
    if n > 0 {
        lemma_binom_small((n - 1) as nat, (k - 1) as nat);
        lemma_binom_small((n - 1) as nat, k);
    }
}

proof fn lemma_binom_closed(m: nat)
    ensures
        binom(m, 1) == m,
        2 * binom(m, 2) == m * (m - 1),
        6 * binom(m, 3) == m * (m - 1) * (m - 2),
        24 * binom(m, 4) == m * (m - 1) * (m - 2) * (m - 3),
        120 * binom(m, 5) == m * (m - 1) * (m - 2) * (m - 3) * (m - 4),
    decreases m,
{
    if m > 0 {
        let n = (m - 1) as nat;
        lemma_binom_closed(n);
        assert(binom(n, 0) == 1);
        let (b1, b2, b3, b4, b5) = (binom(n, 1), binom(n, 2), binom(n, 3), binom(n, 4), binom(n, 5));
        let x = n as int;
        assert(2 * (b1 + b2) == (x + 1) * x) by (nonlinear_arith)
            requires
                b1 == x,
                2 * b2 == x * (x - 1),
        ;
        assert(6 * (b2 + b3) == (x + 1) * x * (x - 1)) by (nonlinear_arith)
            requires
                2 * b2 == x * (x - 1),
                6 * b3 == x * (x - 1) * (x - 2),
        ;
        assert(24 * (b3 + b4) == (x + 1) * x * (x - 1) * (x - 2)) by (nonlinear_arith)
            requires
                6 * b3 == x * (x - 1) * (x - 2),
                24 * b4 == x * (x - 1) * (x - 2) * (x - 3),
        ;
        assert(120 * (b4 + b5) == (x + 1) * x * (x - 1) * (x - 2) * (x - 3)) by (nonlinear_arith)
            requires
                24 * b4 == x * (x - 1) * (x - 2) * (x - 3),
                120 * b5 == x * (x - 1) * (x - 2) * (x - 3) * (x - 4),
        ;
    }
}

proof fn lemma_binom_monotone(n: nat, k: nat)
    requires
        n <= 52,
        k >= 1,
    ensures
        binom(n, k) <= binom(52, k),
    decreases 52 - n,
{
    if n < 52 {
        lemma_binom_monotone(n + 1, k);
    }
}

/// Result of a showdown on a five-card board: 0 the hero wins, 1 a tie,
/// 2 the opponent wins.
pub open spec fn showdown(hero: Seq<usize>, opp: Seq<usize>, board: Seq<usize>) -> int {
    outcome(best_score(hero + board), best_score(opp + board))
}

/// 1 when the board `rem[a], rem[b], rem[c], rem[d], rem[e]` gives result `x`.
pub open spec fn board_hit(
    hero: Seq<usize>,
    opp: Seq<usize>,
    rem: Seq<usize>,
    x: int,
    a: int,
    b: int,
    c: int,
    d: int,
    e: int,
) -> nat {
    if showdown(hero, opp, seq![rem[a], rem[b], rem[c], rem[d], rem[e]]) == x {
        1
    } else {
        0
    }
}

/// Boards with result `x` whose first four positions are `a < b < c < d`
/// and whose last is at least `e`.
pub open spec fn boards_e(
    hero: Seq<usize>,
    opp: Seq<usize>,
    rem: Seq<usize>,
    x: int,
    a: int,
    b: int,
    c: int,
    d: int,
    e: int,
) -> nat
    decreases rem.len() - e,
{
    if e >= rem.len() {
        0
    } else {
        board_hit(hero, opp, rem, x, a, b, c, d, e) + boards_e(hero, opp, rem, x, a, b, c, d, e + 1)
    }
}

/// Boards with result `x`, first positions `a < b < c`, fourth at least `d`.
pub open spec fn boards_d(
    hero: Seq<usize>,
    opp: Seq<usize>,
    rem: Seq<usize>,
    x: int,
    a: int,
    b: int,
    c: int,
    d: int,
) -> nat
    decreases rem.len() - d,
{
    if d >= rem.len() - 1 {
        0
    } else {
        boards_e(hero, opp, rem, x, a, b, c, d, d + 1) + boards_d(hero, opp, rem, x, a, b, c, d + 1)
    }
}

/// Boards with result `x`, first positions `a < b`, third at least `c`.
pub open spec fn boards_c(
    hero: Seq<usize>,
    opp: Seq<usize>,
    rem: Seq<usize>,
    x: int,
    a: int,
    b: int,
    c: int,
) -> nat
    decreases rem.len() - c,
{
    if c >= rem.len() - 2 {
        0
    } else {
        boards_d(hero, opp, rem, x, a, b, c, c + 1) + boards_c(hero, opp, rem, x, a, b, c + 1)
    }
}

/// Boards with result `x`, first position `a`, second at least `b`.
pub open spec fn boards_b(hero: Seq<usize>, opp: Seq<usize>, rem: Seq<usize>, x: int, a: int, b: int) -> nat
    decreases rem.len() - b,
{
    if b >= rem.len() - 3 {
        0
    } else {
        boards_c(hero, opp, rem, x, a, b, b + 1) + boards_b(hero, opp, rem, x, a, b + 1)
    }
}

/// Boards with result `x` whose first position is at least `a`.
pub open spec fn boards_a(hero: Seq<usize>, opp: Seq<usize>, rem: Seq<usize>, x: int, a: int) -> nat
    decreases rem.len() - a,
{
    if a >= rem.len() - 4 {
        0
    } else {
        boards_b(hero, opp, rem, x, a, a + 1) + boards_a(hero, opp, rem, x, a + 1)
    }
}

/// Number of five-card boards from `rem` (each set of positions once) on
/// which `hero` against `opp` gives result `x`.
pub open spec fn board_count(hero: Seq<usize>, opp: Seq<usize>, rem: Seq<usize>, x: int) -> nat {
    boards_a(hero, opp, rem, x, 0)
}

/// One of the three counts, picked by `x`.
pub open spec fn tally(x: int, w: u64, t: u64, l: u64) -> int {
    if x == 0 {
        w as int
    } else if x == 1 {
        t as int
    } else {
        l as int
    }
}

/// `s` without the entries equal to `y` or `z`.
pub open spec fn drop_values(s: Seq<usize>, y: usize, z: usize) -> Seq<usize>
    decreases s.len(),
{
    if s.len() == 0 {
        Seq::empty()
    } else if s.last() == y || s.last() == z {
        drop_values(s.drop_last(), y, z)
    } else {
        drop_values(s.drop_last(), y, z).push(s.last())
    }
}

/// The indices below `n` other than `h0` and `h1`, ascending.
pub open spec fn unseen_below(h0: usize, h1: usize, n: int) -> Seq<usize>
    decreases n,
{
    if n <= 0 {
        Seq::empty()
    } else if n - 1 == h0 || n - 1 == h1 {
        unseen_below(h0, h1, n - 1)
    } else {
        unseen_below(h0, h1, n - 1).push((n - 1) as usize)
    }
}

/// Results `x` over opponent pairs `(deck[i], deck[j'])`, `j' >= j`, each
/// against every board from the rest of `deck`.
pub open spec fn pairs_j(hero: Seq<usize>, deck: Seq<usize>, x: int, i: int, j: int) -> nat
    decreases deck.len() - j,
{
    if j >= deck.len() {
        0
    } else {
        board_count(hero, seq![deck[i], deck[j]], drop_values(deck, deck[i], deck[j]), x)
            + pairs_j(hero, deck, x, i, j + 1)
    }
}

/// Results `x` over opponent pairs whose first position is at least `i`.
pub open spec fn pairs_i(hero: Seq<usize>, deck: Seq<usize>, x: int, i: int) -> nat
    decreases deck.len() - i,
{
    if i >= deck.len() - 1 {
        0
    } else {
        pairs_j(hero, deck, x, i, i + 1) + pairs_i(hero, deck, x, i + 1)
    }
}

/// Exact heads-up count of result `x` for hero `h0, h1`: every opponent
/// holding from the 50 other cards, against every board from the other 48.
pub open spec fn exact_count(h0: usize, h1: usize, x: int) -> nat {
    pairs_i(seq![h0, h1], unseen_below(h0, h1, 52), x, 0)
}

/// Counts `(win, tie, lose)` of `hero` against `opp` over all five-card
/// boards drawn from `rem`.
fn count_boards(hero: [usize; 2], opp: [usize; 2], rem: &Vec<usize>) -> (r: (u64, u64, u64))
    requires
        5 <= rem@.len() <= 52,
    ensures
        r.0 + r.1 + r.2 == binom(rem@.len(), 5),
        r.0 == board_count(hero@, opp@, rem@, 0),
        r.1 == board_count(hero@, opp@, rem@, 1),
        r.2 == board_count(hero@, opp@, rem@, 2),
{
    let n = rem.len();
    proof {
        lemma_binom_monotone(n as nat, 5);
        lemma_binom_closed(52);
    }
    let mut w: u64 = 0;
    let mut t: u64 = 0;
    let mut l: u64 = 0;
    let mut a: usize = 0;
    while a < n - 4
        invariant
            n == rem@.len(),
            5 <= n <= 52,
            a <= n - 4,
            binom(n as nat, 5) <= 2598960,
            w + t + l + binom((n - a) as nat, 5) == binom(n as nat, 5),
        tally(0, w, t, l) + boards_a(hero@, opp@, rem@, 0, a as int) == board_count(hero@, opp@, rem@, 0),
        tally(1, w, t, l) + boards_a(hero@, opp@, rem@, 1, a as int) == board_count(hero@, opp@, rem@, 1),
        tally(2, w, t, l) + boards_a(hero@, opp@, rem@, 2, a as int) == board_count(hero@, opp@, rem@, 2),
        decreases n - a,
    {
        let mut b: usize = a + 1;
        while b < n - 3
            invariant
                n == rem@.len(),
                5 <= n <= 52,
                a < n - 4,
                a < b <= n - 3,
                binom(n as nat, 5) <= 2598960,
                w + t + l + binom((n - a) as nat, 5) + binom((n - b) as nat, 4) == binom(n as nat, 5)
                    + binom((n - a - 1) as nat, 4),
            tally(0, w, t, l) + boards_b(hero@, opp@, rem@, 0, a as int, b as int) + boards_a(hero@, opp@, rem@, 0, a + 1) == board_count(hero@, opp@, rem@, 0),
            tally(1, w, t, l) + boards_b(hero@, opp@, rem@, 1, a as int, b as int) + boards_a(hero@, opp@, rem@, 1, a + 1) == board_count(hero@, opp@, rem@, 1),
            tally(2, w, t, l) + boards_b(hero@, opp@, rem@, 2, a as int, b as int) + boards_a(hero@, opp@, rem@, 2, a + 1) == board_count(hero@, opp@, rem@, 2),
            decreases n - b,
        {
            let mut c: usize = b + 1;
            while c < n - 2
                invariant
                    n == rem@.len(),
                    5 <= n <= 52,
                    a < n - 4,
                    a < b < n - 3,
                    b < c <= n - 2,
                    binom(n as nat, 5) <= 2598960,
                    w + t + l + binom((n - a) as nat, 5) + binom((n - b) as nat, 4) + binom(
                        (n - c) as nat,
                        3,
                    ) == binom(n as nat, 5) + binom((n - a - 1) as nat, 4) + binom(
                        (n - b - 1) as nat,
                        3,
                    ),
                tally(0, w, t, l) + boards_c(hero@, opp@, rem@, 0, a as int, b as int, c as int) + boards_b(hero@, opp@, rem@, 0, a as int, b + 1) + boards_a(hero@, opp@, rem@, 0, a + 1) == board_count(hero@, opp@, rem@, 0),
                tally(1, w, t, l) + boards_c(hero@, opp@, rem@, 1, a as int, b as int, c as int) + boards_b(hero@, opp@, rem@, 1, a as int, b + 1) + boards_a(hero@, opp@, rem@, 1, a + 1) == board_count(hero@, opp@, rem@, 1),
                tally(2, w, t, l) + boards_c(hero@, opp@, rem@, 2, a as int, b as int, c as int) + boards_b(hero@, opp@, rem@, 2, a as int, b + 1) + boards_a(hero@, opp@, rem@, 2, a + 1) == board_count(hero@, opp@, rem@, 2),
                decreases n - c,
            {
                let mut d: usize = c + 1;
                while d < n - 1
                    invariant
                        n == rem@.len(),
                        5 <= n <= 52,
                        a < n - 4,
                        a < b < n - 3,
                        b < c < n - 2,
                        c < d <= n - 1,
                        binom(n as nat, 5) <= 2598960,
                        w + t + l + binom((n - a) as nat, 5) + binom((n - b) as nat, 4) + binom(
                            (n - c) as nat,
                            3,
                        ) + binom((n - d) as nat, 2) == binom(n as nat, 5) + binom(
                            (n - a - 1) as nat,
                            4,
                        ) + binom((n - b - 1) as nat, 3) + binom((n - c - 1) as nat, 2),
                    tally(0, w, t, l) + boards_d(hero@, opp@, rem@, 0, a as int, b as int, c as int, d as int) + boards_c(hero@, opp@, rem@, 0, a as int, b as int, c + 1) + boards_b(hero@, opp@, rem@, 0, a as int, b + 1) + boards_a(hero@, opp@, rem@, 0, a + 1) == board_count(hero@, opp@, rem@, 0),
                    tally(1, w, t, l) + boards_d(hero@, opp@, rem@, 1, a as int, b as int, c as int, d as int) + boards_c(hero@, opp@, rem@, 1, a as int, b as int, c + 1) + boards_b(hero@, opp@, rem@, 1, a as int, b + 1) + boards_a(hero@, opp@, rem@, 1, a + 1) == board_count(hero@, opp@, rem@, 1),
                    tally(2, w, t, l) + boards_d(hero@, opp@, rem@, 2, a as int, b as int, c as int, d as int) + boards_c(hero@, opp@, rem@, 2, a as int, b as int, c + 1) + boards_b(hero@, opp@, rem@, 2, a as int, b + 1) + boards_a(hero@, opp@, rem@, 2, a + 1) == board_count(hero@, opp@, rem@, 2),
                    decreases n - d,
                {
                    let mut e: usize = d + 1;
                    while e < n
                        invariant
                            n == rem@.len(),
                            5 <= n <= 52,
                            a < n - 4,
                            a < b < n - 3,
                            b < c < n - 2,
                            c < d < n - 1,
                            d < e <= n,
                            binom(n as nat, 5) <= 2598960,
                            w + t + l + binom((n - a) as nat, 5) + binom((n - b) as nat, 4)
                                + binom((n - c) as nat, 3) + binom((n - d) as nat, 2) + (n - e)
                                == binom(n as nat, 5) + binom((n - a - 1) as nat, 4) + binom(
                                (n - b - 1) as nat,
                                3,
                            ) + binom((n - c - 1) as nat, 2) + (n - d - 1),
                        tally(0, w, t, l) + boards_e(hero@, opp@, rem@, 0, a as int, b as int, c as int, d as int, e as int) + boards_d(hero@, opp@, rem@, 0, a as int, b as int, c as int, d + 1) + boards_c(hero@, opp@, rem@, 0, a as int, b as int, c + 1) + boards_b(hero@, opp@, rem@, 0, a as int, b + 1) + boards_a(hero@, opp@, rem@, 0, a + 1) == board_count(hero@, opp@, rem@, 0),
                        tally(1, w, t, l) + boards_e(hero@, opp@, rem@, 1, a as int, b as int, c as int, d as int, e as int) + boards_d(hero@, opp@, rem@, 1, a as int, b as int, c as int, d + 1) + boards_c(hero@, opp@, rem@, 1, a as int, b as int, c + 1) + boards_b(hero@, opp@, rem@, 1, a as int, b + 1) + boards_a(hero@, opp@, rem@, 1, a + 1) == board_count(hero@, opp@, rem@, 1),
                        tally(2, w, t, l) + boards_e(hero@, opp@, rem@, 2, a as int, b as int, c as int, d as int, e as int) + boards_d(hero@, opp@, rem@, 2, a as int, b as int, c as int, d + 1) + boards_c(hero@, opp@, rem@, 2, a as int, b as int, c + 1) + boards_b(hero@, opp@, rem@, 2, a as int, b + 1) + boards_a(hero@, opp@, rem@, 2, a + 1) == board_count(hero@, opp@, rem@, 2),
                        decreases n - e,
                    {
                        let h7: [usize; 7] = [hero[0], hero[1], rem[a], rem[b], rem[c], rem[d], rem[e]];
                        let o7: [usize; 7] = [opp[0], opp[1], rem[a], rem[b], rem[c], rem[d], rem[e]];
                        let ghost board = seq![
                            rem@[a as int],
                            rem@[b as int],
                            rem@[c as int],
                            rem@[d as int],
                            rem@[e as int],
                        ];
                        assert(h7@ =~= hero@ + board);
                        assert(o7@ =~= opp@ + board);
                        let hs = best_hand_score_7_indices(&h7);
                        let os = best_hand_score_7_indices(&o7);
                        if hs < os {
                            w += 1;
                        } else if hs > os {
                            l += 1;
                        } else {
                            t += 1;
                        }
                        e += 1;
                    }
                    proof {
                        assert(binom((n - d) as nat, 2) == binom((n - d - 1) as nat, 1) + binom(
                            (n - d - 1) as nat,
                            2,
                        ));
                        lemma_binom_closed((n - d - 1) as nat);
                    }
                    d += 1;
                }
                proof {
                    lemma_binom_small(1, 2);
                    assert(binom((n - c) as nat, 3) == binom((n - c - 1) as nat, 2) + binom(
                        (n - c - 1) as nat,
                        3,
                    ));
                }
                c += 1;
            }
            proof {
                lemma_binom_small(2, 3);
                assert(binom((n - b) as nat, 4) == binom((n - b - 1) as nat, 3) + binom(
                    (n - b - 1) as nat,
                    4,
                ));
            }
            b += 1;
        }
        proof {
            lemma_binom_small(3, 4);
            assert(binom((n - a) as nat, 5) == binom((n - a - 1) as nat, 4) + binom(
                (n - a - 1) as nat,
                5,
            ));
        }
        a += 1;
    }
    proof {
        lemma_binom_small(4, 5);
    }
    (w, t, l)
}

/// Exact heads-up equity of a two-card hero: all opponent holdings from the
/// other 50 cards, and for each all boards from the remaining 48. Errors on
/// a hero of another size or with the same card twice.
pub fn exact_heads_up_preflop(hero: &[Card]) -> (r: Result<SimResult, String>)
    requires
        forall|i: int| 0 <= i < hero@.len() ==> (#[trigger] hero@[i]).wf(),
    ensures
        hero@.len() != 2 ==> r is Err,
        hero@.len() == 2 && hero@[0].index() == hero@[1].index() ==> r is Err,
        hero@.len() == 2 && hero@[0].index() != hero@[1].index() ==> r is Ok,
        r is Ok ==> r->Ok_0.win + r->Ok_0.tie + r->Ok_0.lose == r->Ok_0.trials
            && r->Ok_0.trials == binom(50, 2) * binom(48, 5) && r->Ok_0.trials == 2_097_572_400
            && r->Ok_0.elapsed_ms == 0,
        r is Ok ==> {
            let h0 = hero@[0].index() as usize;
            let h1 = hero@[1].index() as usize;
            &&& r->Ok_0.win == exact_count(h0, h1, 0)
            &&& r->Ok_0.tie == exact_count(h0, h1, 1)
            &&& r->Ok_0.lose == exact_count(h0, h1, 2)
        },
{
    if hero.len() != 2 {
        return Err(String::from_str("exact mode requires hero=2 cards"));
    }
    let h0 = hero[0].to_idx();
    let h1 = hero[1].to_idx();
    if h0 == h1 {
        return Err(String::from_str("duplicate hero cards"));
    }
    let mut deck50: Vec<usize> = Vec::new();
    let mut x: usize = 0;
    while x < 52
        invariant
            0 <= x <= 52,
            h0 < 52,
            h1 < 52,
            h0 != h1,
            deck50@.len() + (if h0 < x { 1int } else { 0int }) + (if h1 < x { 1int } else { 0int })
                == x,
            forall|k: int| 0 <= k < deck50@.len() ==> deck50@[k] != h0 && deck50@[k] != h1,
            forall|k: int| 0 <= k < deck50@.len() ==> deck50@[k] < x,
            forall|k1: int, k2: int| 0 <= k1 < k2 < deck50@.len() ==> deck50@[k1] < deck50@[k2],
            deck50@ == unseen_below(h0, h1, x as int),
        decreases 52 - x,
    {
        if x != h0 && x != h1 {
            deck50.push(x);
        }
        x += 1;
    }
    let m = deck50.len();
    proof {
        lemma_binom_closed(48);
        lemma_binom_closed(50);
        assert(binom(48, 5) == 1712304);
        assert(binom(50, 2) == 1225);
    }
    let mut win: u64 = 0;
    let mut tie: u64 = 0;
    let mut lose: u64 = 0;
    let mut i: usize = 0;
    while i < m - 1
        invariant
            m == deck50@.len() == 50,
            forall|k1: int, k2: int| 0 <= k1 < k2 < deck50@.len() ==> deck50@[k1] < deck50@[k2],
            i <= m - 1,
            binom(48, 5) == 1712304,
            binom(50, 2) == 1225,
            win + tie + lose + 1712304 * binom((50 - i) as nat, 2) == 1712304 * 1225,
            deck50@ == unseen_below(h0, h1, 52),
            tally(0, win, tie, lose) + pairs_i(seq![h0, h1], deck50@, 0, i as int) == exact_count(h0, h1, 0),
            tally(1, win, tie, lose) + pairs_i(seq![h0, h1], deck50@, 1, i as int) == exact_count(h0, h1, 1),
            tally(2, win, tie, lose) + pairs_i(seq![h0, h1], deck50@, 2, i as int) == exact_count(h0, h1, 2),
        decreases m - i,
    {
        let mut j: usize = i + 1;
        while j < m
            invariant
                m == deck50@.len() == 50,
                forall|k1: int, k2: int| 0 <= k1 < k2 < deck50@.len() ==> deck50@[k1] < deck50@[k2],
                i < m - 1,
                i < j <= m,
                binom(48, 5) == 1712304,
                binom(50, 2) == 1225,
                win + tie + lose + 1712304 * binom((50 - i) as nat, 2) == 1712304 * 1225
                    + 1712304 * (j - i - 1),
                1712304 * (j - i - 1) <= 1712304 * binom((50 - i) as nat, 2),
                deck50@ == unseen_below(h0, h1, 52),
                tally(0, win, tie, lose) + pairs_j(seq![h0, h1], deck50@, 0, i as int, j as int) + pairs_i(seq![h0, h1], deck50@, 0, i + 1) == exact_count(h0, h1, 0),
                tally(1, win, tie, lose) + pairs_j(seq![h0, h1], deck50@, 1, i as int, j as int) + pairs_i(seq![h0, h1], deck50@, 1, i + 1) == exact_count(h0, h1, 1),
                tally(2, win, tie, lose) + pairs_j(seq![h0, h1], deck50@, 2, i as int, j as int) + pairs_i(seq![h0, h1], deck50@, 2, i + 1) == exact_count(h0, h1, 2),
            decreases m - j,
        {
            let o0 = deck50[i];
            let o1 = deck50[j];
            let mut rem: Vec<usize> = Vec::new();
            let mut q: usize = 0;
            while q < m
                invariant
                    m == deck50@.len() == 50,
                    forall|k1: int, k2: int| 0 <= k1 < k2 < deck50@.len() ==> deck50@[k1] < deck50@[k2],
                    0 <= q <= m,
                    i < j < m,
                    o0 == deck50@[i as int],
                    o1 == deck50@[j as int],
                    rem@.len() + (if i < q { 1int } else { 0int }) + (if j < q { 1int } else { 0int })
                        == q,
                    rem@ == drop_values(deck50@.take(q as int), o0, o1),
                decreases m - q,
            {
                let c = deck50[q];
                assert(deck50@.take(q as int + 1).drop_last() =~= deck50@.take(q as int));
                assert(c == o0 ==> q == i);
                assert(c == o1 ==> q == j);
                if c != o0 && c != o1 {
                    rem.push(c);
                }
                q += 1;
            }
            assert(deck50@.take(m as int) =~= deck50@);
            let hero2: [usize; 2] = [h0, h1];
            let opp2: [usize; 2] = [o0, o1];
            assert(hero2@ =~= seq![h0, h1]);
            assert(opp2@ =~= seq![deck50@[i as int], deck50@[j as int]]);
            let (w, t, l) = count_boards(hero2, opp2, &rem);
            proof {
                lemma_binom_closed((49 - i) as nat);
                assert(binom((50 - i) as nat, 2) == binom((49 - i) as nat, 1) + binom(
                    (49 - i) as nat,
                    2,
                ));
            }
            win = win + w;
            tie = tie + t;
            lose = lose + l;
            j += 1;
        }
        proof {
            lemma_binom_closed((49 - i) as nat);
            assert(binom((50 - i) as nat, 2) == binom((49 - i) as nat, 1) + binom((49 - i) as nat, 2));
        }
        i += 1;
    }
    proof {
        lemma_binom_small(1, 2);
    }
    let total = win + tie + lose;
    if total == 0 {
        return Err(String::from_str("no exact states enumerated"));
    }
    Ok(SimResult { win, tie, lose, trials: total, elapsed_ms: 0 })
}

/// `g` is `h` with its two cards in the other order.
pub open spec fn swapped_pair(h: Seq<usize>, g: Seq<usize>) -> bool {
    h.len() == 2 && g == seq![h[1], h[0]]
}

proof fn lemma_hit_swap(h: Seq<usize>, g: Seq<usize>, o: Seq<usize>, rem: Seq<usize>, x: int, a: int, b: int, c: int, d: int, e: int)
    requires
        swapped_pair(h, g),
    ensures
        board_hit(h, o, rem, x, a, b, c, d, e) == board_hit(g, o, rem, x, a, b, c, d, e),
{
    let bd = seq![rem[a], rem[b], rem[c], rem[d], rem[e]];
    assert(h =~= seq![h[0], h[1]]);
    lemma_hero_score_swap(h[0], h[1], bd);
}

proof fn lemma_e_swap(h: Seq<usize>, g: Seq<usize>, o: Seq<usize>, rem: Seq<usize>, x: int, a: int, b: int, c: int, d: int, e: int)
    requires
        swapped_pair(h, g),
    ensures
        boards_e(h, o, rem, x, a, b, c, d, e) == boards_e(g, o, rem, x, a, b, c, d, e),
    decreases rem.len() - e,
{
    if e < rem.len() {
        lemma_e_swap(h, g, o, rem, x, a, b, c, d, e + 1);
        lemma_hit_swap(h, g, o, rem, x, a, b, c, d, e);
    }
}

proof fn lemma_d_swap(h: Seq<usize>, g: Seq<usize>, o: Seq<usize>, rem: Seq<usize>, x: int, a: int, b: int, c: int, d: int)
    requires
        swapped_pair(h, g),
    ensures
        boards_d(h, o, rem, x, a, b, c, d) == boards_d(g, o, rem, x, a, b, c, d),
    decreases rem.len() - d,
{
    if d < rem.len() - 1 {
        lemma_d_swap(h, g, o, rem, x, a, b, c, d + 1);
        lemma_e_swap(h, g, o, rem, x, a, b, c, d, d + 1);
    }
}

proof fn lemma_c_swap(h: Seq<usize>, g: Seq<usize>, o: Seq<usize>, rem: Seq<usize>, x: int, a: int, b: int, c: int)
    requires
        swapped_pair(h, g),
    ensures
        boards_c(h, o, rem, x, a, b, c) == boards_c(g, o, rem, x, a, b, c),
    decreases rem.len() - c,
{
    if c < rem.len() - 2 {
        lemma_c_swap(h, g, o, rem, x, a, b, c + 1);
        lemma_d_swap(h, g, o, rem, x, a, b, c, c + 1);
    }
}

proof fn lemma_b_swap(h: Seq<usize>, g: Seq<usize>, o: Seq<usize>, rem: Seq<usize>, x: int, a: int, b: int)
    requires
        swapped_pair(h, g),
    ensures
        boards_b(h, o, rem, x, a, b) == boards_b(g, o, rem, x, a, b),
    decreases rem.len() - b,
{
    if b < rem.len() - 3 {
        lemma_b_swap(h, g, o, rem, x, a, b + 1);
        lemma_c_swap(h, g, o, rem, x, a, b, b + 1);
    }
}

proof fn lemma_a_swap(h: Seq<usize>, g: Seq<usize>, o: Seq<usize>, rem: Seq<usize>, x: int, a: int)
    requires
        swapped_pair(h, g),
    ensures
        boards_a(h, o, rem, x, a) == boards_a(g, o, rem, x, a),
    decreases rem.len() - a,
{
    if a < rem.len() - 4 {
        lemma_a_swap(h, g, o, rem, x, a + 1);
        lemma_b_swap(h, g, o, rem, x, a, a + 1);
    }
}

proof fn lemma_pairs_j_swap(h: Seq<usize>, g: Seq<usize>, deck: Seq<usize>, x: int, i: int, j: int)
    requires
        swapped_pair(h, g),
    ensures
        pairs_j(h, deck, x, i, j) == pairs_j(g, deck, x, i, j),
    decreases deck.len() - j,
{
    if j < deck.len() {
        lemma_pairs_j_swap(h, g, deck, x, i, j + 1);
        lemma_a_swap(h, g, seq![deck[i], deck[j]], drop_values(deck, deck[i], deck[j]), x, 0);
    }
}

proof fn lemma_pairs_i_swap(h: Seq<usize>, g: Seq<usize>, deck: Seq<usize>, x: int, i: int)
    requires
        swapped_pair(h, g),
    ensures
        pairs_i(h, deck, x, i) == pairs_i(g, deck, x, i),
    decreases deck.len() - i,
{
    if i < deck.len() - 1 {
        lemma_pairs_i_swap(h, g, deck, x, i + 1);
        lemma_pairs_j_swap(h, g, deck, x, i, i + 1);
    }
}

proof fn lemma_unseen_symmetric(h0: usize, h1: usize, n: int)
    ensures
        unseen_below(h0, h1, n) == unseen_below(h1, h0, n),
    decreases n,
{
    if n > 0 {
        lemma_unseen_symmetric(h0, h1, n - 1);
    }
}

/// The exact heads-up counts do not depend on the order of the two hero
/// cards.
pub proof fn lemma_exact_hero_order(h0: usize, h1: usize, x: int)
    ensures
        exact_count(h0, h1, x) == exact_count(h1, h0, x),
{
    lemma_unseen_symmetric(h0, h1, 52);
    let h = seq![h0, h1];
    let g = seq![h1, h0];
    assert(g == seq![h[1], h[0]]);
    lemma_pairs_i_swap(h, g, unseen_below(h0, h1, 52), x, 0);
}

} // verus!
