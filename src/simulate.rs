//! Monte Carlo driver: trials split into contiguous chunks, one per worker,
//! each worker with its own generator, deck copy and scratch buffer.
use vstd::prelude::*;
use rayon::iter::{IntoParallelIterator, ParallelIterator};
use crate::cards::{
    Card, strictly_ascending, board_len_ok, build_deck, deck_below, draw_indices, fisher_yates, is_known,
};
use crate::evaluate::{
    best_hand_score_7_indices, best_score, card_indices, lemma_best_exists,
    lemma_best_score_permutation,
};
use crate::rng::{WorkerRng, worker_seed};

verus! {

/// The fixed inputs of one simulation, shared read-only by the workers.
pub struct SimJob {
    /// Hero's two card indices.
    pub hero: [usize; 2],
    /// Known board card indices in the first `board_len` slots.
    pub board: [usize; 5],
    pub board_len: usize,
    pub num_opponents: usize,
    /// The remaining deck, ascending.
    pub deck: Vec<usize>,
    pub trials: u64,
    /// Trials per worker (the last chunks may be shorter or empty).
    pub chunk: u64,
    pub seed: Option<u64>,
}

/// The mathematical content of a job.
pub struct JobModel {
    pub hero: Seq<usize>,
    pub board: Seq<usize>,
    pub board_len: int,
    pub num_opponents: int,
    pub deck: Seq<usize>,
    pub trials: int,
    pub chunk: int,
    pub seed: Option<u64>,
}

impl JobModel {
    /// Board cards still to draw.
    pub open spec fn need_board(&self) -> int {
        5 - self.board_len
    }

    /// Cards drawn per trial: two per opponent and the missing board.
    pub open spec fn n_draw(&self) -> int {
        2 * self.num_opponents + 5 - self.board_len
    }

    /// Whether card index `c` is neither a hero card nor a known board card.
    pub open spec fn unknown(&self, c: usize) -> bool {
        &&& c != self.hero[0]
        &&& c != self.hero[1]
        &&& forall|b: int| 0 <= b < self.board_len ==> c != #[trigger] self.board[b]
    }

    /// First trial of worker `k`.
    pub open spec fn chunk_start(&self, k: int) -> int {
        if k * self.chunk >= self.trials {
            self.trials
        } else {
            k * self.chunk
        }
    }

    /// Number of trials worker `k` runs.
    pub open spec fn chunk_len(&self, k: int) -> int {
        self.chunk_start(k + 1) - self.chunk_start(k)
    }
}

impl View for SimJob {
    type V = JobModel;

    open spec fn view(&self) -> JobModel {
        JobModel {
            hero: self.hero@,
            board: self.board@,
            board_len: self.board_len as int,
            num_opponents: self.num_opponents as int,
            deck: self.deck@,
            trials: self.trials as int,
            chunk: self.chunk as int,
            seed: self.seed,
        }
    }
}

impl SimJob {
    pub open spec fn wf(&self) -> bool {
        &&& self.board_len <= 5
        &&& 1 <= self.num_opponents <= 9
        &&& self@.n_draw() <= self.deck@.len()
        &&& self.chunk >= 1
        &&& strictly_ascending(self.deck@)
        &&& forall|k: int| 0 <= k < self.deck@.len() ==> self@.unknown(#[trigger] self.deck@[k])
    }
}

/// The completed board: the known cards, then the first drawn ones.
pub open spec fn full_board(job: JobModel, drawn: Seq<usize>) -> Seq<usize> {
    Seq::new(
        5,
        |k: int| if k < job.board_len { job.board[k] } else { drawn[k - job.board_len] },
    )
}

/// Seven cards of opponent `k`: its two drawn cards and the board.
pub open spec fn opponent_seven(job: JobModel, drawn: Seq<usize>, k: int) -> Seq<usize> {
    seq![drawn[job.need_board() + 2 * k], drawn[job.need_board() + 2 * k + 1]] + full_board(
        job,
        drawn,
    )
}

/// Best (lowest) score among the first `k` opponents, `k >= 1`.
pub open spec fn best_opponent(job: JobModel, drawn: Seq<usize>, k: int) -> int
    decreases k,
{
    if k <= 1 {
        best_score(opponent_seven(job, drawn, 0))
    } else {
        let prev = best_opponent(job, drawn, k - 1);
        let s = best_score(opponent_seven(job, drawn, k - 1));
        if s < prev {
            s
        } else {
            prev
        }
    }
}

/// 0 win, 1 tie, 2 loss: lower scores are stronger.
pub open spec fn outcome(hero_score: int, opp_score: int) -> int {
    if hero_score < opp_score {
        0
    } else if hero_score > opp_score {
        2
    } else {
        1
    }
}

/// Outcome of a trial whose deck after drawing is `drawn`.
pub open spec fn trial_outcome(job: JobModel, drawn: Seq<usize>) -> int {
    outcome(
        best_score(seq![job.hero[0], job.hero[1]] + full_board(job, drawn)),
        best_opponent(job, drawn, job.num_opponents),
    )
}

/// One seeded trial from LCG state `s`: its outcome and the next state.
pub open spec fn seeded_trial(job: JobModel, s: u64) -> (int, u64) {
    let fy = fisher_yates(job.deck, 0, job.n_draw(), s);
    (trial_outcome(job, fy.0), fy.1)
}

/// Counts `(win, tie, lose)` and the final state of `n` seeded trials.
pub open spec fn seeded_counts(job: JobModel, s: u64, n: nat) -> (nat, nat, nat, u64)
    decreases n,
{
    if n == 0 {
        (0, 0, 0, s)
    } else {
        let prev = seeded_counts(job, s, (n - 1) as nat);
        let t = seeded_trial(job, prev.3);
        (
            prev.0 + if t.0 == 0 { 1nat } else { 0nat },
            prev.1 + if t.0 == 1 { 1nat } else { 0nat },
            prev.2 + if t.0 == 2 { 1nat } else { 0nat },
            t.1,
        )
    }
}

/// Whether `d` is a deal of the job's deck: the same cards, in some order.
pub open spec fn is_deal(job: JobModel, d: Seq<usize>) -> bool {
    d.to_multiset() == job.deck.to_multiset()
}

/// Whether every entry of `ds` is a deal of the job's deck.
pub open spec fn all_deals(job: JobModel, ds: Seq<Seq<usize>>) -> bool {
    forall|i: int| 0 <= i < ds.len() ==> is_deal(job, #[trigger] ds[i])
}

/// Counts `(win, tie, lose)` of the trials played on the deals `ds`.
pub open spec fn deal_counts(job: JobModel, ds: Seq<Seq<usize>>) -> (nat, nat, nat)
    decreases ds.len(),
{
    if ds.len() == 0 {
        (0, 0, 0)
    } else {
        let p = deal_counts(job, ds.drop_last());
        let o = trial_outcome(job, ds.last());
        (
            p.0 + if o == 0 { 1nat } else { 0nat },
            p.1 + if o == 1 { 1nat } else { 0nat },
            p.2 + if o == 2 { 1nat } else { 0nat },
        )
    }
}

proof fn lemma_deal_counts_concat(job: JobModel, a: Seq<Seq<usize>>, b: Seq<Seq<usize>>)
    ensures
        deal_counts(job, a + b).0 == deal_counts(job, a).0 + deal_counts(job, b).0,
        deal_counts(job, a + b).1 == deal_counts(job, a).1 + deal_counts(job, b).1,
        deal_counts(job, a + b).2 == deal_counts(job, a).2 + deal_counts(job, b).2,
    decreases b.len(),
{
    if b.len() == 0 {
        assert(a + b =~= a);
    } else {
        lemma_deal_counts_concat(job, a, b.drop_last());
        assert((a + b).drop_last() =~= a + b.drop_last());
        assert((a + b).last() == b.last());
    }
}

/// What worker `k` reports: its chunk's counts, and with a seed exactly the
/// seeded counts from the worker's own seed.
pub open spec fn worker_result_ok(job: JobModel, k: int, r: (u64, u64, u64)) -> bool {
    &&& r.0 + r.1 + r.2 == job.chunk_len(k)
    &&& exists|ds: Seq<Seq<usize>>|
        {
            &&& ds.len() == job.chunk_len(k)
            &&& all_deals(job, ds)
            &&& #[trigger] deal_counts(job, ds) == (r.0 as nat, r.1 as nat, r.2 as nat)
        }
    &&& job.seed is Some ==> {
        let c = seeded_counts(
            job,
            worker_seed(job.seed->Some_0, k as u64),
            job.chunk_len(k) as nat,
        );
        r.0 == c.0 && r.1 == c.1 && r.2 == c.2
    }
}

/// Plays one trial on a fresh copy of the deck.
fn run_one_trial(job: &SimJob, deck: &mut Vec<usize>, rng: &mut WorkerRng, scratch: &mut Vec<usize>) -> (r: u8)
    requires
        job.wf(),
        old(deck)@ == job.deck@,
        old(scratch)@.len() == job@.n_draw(),
    ensures
        r < 3,
        final(deck)@.len() == job.deck@.len(),
        final(scratch)@.len() == job@.n_draw(),
        *old(rng) is Seeded ==> *final(rng) is Seeded && (r as int, (*final(rng))->Seeded_0)
            == seeded_trial(job@, (*old(rng))->Seeded_0),
        *old(rng) is Thread ==> *final(rng) is Thread,
        r as int == trial_outcome(job@, final(deck)@),
        final(deck)@.to_multiset() == job.deck@.to_multiset(),
        forall|i: int, j: int|
            0 <= i < j < final(deck)@.len() ==> final(deck)@[i] != final(deck)@[j],
        forall|k: int| 0 <= k < final(deck)@.len() ==> job@.unknown(#[trigger] final(deck)@[k]),
{
    let n_draw = job.num_opponents * 2 + 5 - job.board_len;
    let need = 5 - job.board_len;
    draw_indices(deck, n_draw, rng, scratch);
    let ghost drawn = deck@;
    proof {
        lemma_perm_distinct(job.deck@, drawn);
        assert forall|k: int| 0 <= k < drawn.len() implies job@.unknown(#[trigger] drawn[k]) by {
            lemma_perm_member(job.deck@, drawn, k);
        }
    }
    let mut fb: [usize; 5] = job.board;
    let mut i: usize = 0;
    while i < need
        invariant
            job.wf(),
            need == job@.need_board(),
            n_draw == job@.n_draw(),
            scratch@.len() == n_draw,
            forall|k: int| 0 <= k < n_draw ==> scratch@[k] == drawn[k],
            0 <= i <= need,
            forall|k: int| 0 <= k < job.board_len + i ==> fb@[k] == full_board(job@, drawn)[k],
        decreases need - i,
    {
        fb[job.board_len + i] = scratch[i];
        i += 1;
    }
    assert(fb@ =~= full_board(job@, drawn));
    let hero7: [usize; 7] = [job.hero[0], job.hero[1], fb[0], fb[1], fb[2], fb[3], fb[4]];
    assert(hero7@ =~= seq![job.hero[0], job.hero[1]] + full_board(job@, drawn));
    let hero_score = best_hand_score_7_indices(&hero7);
    let mut best_opp: u32 = 0;
    let mut k: usize = 0;
    while k < job.num_opponents
        invariant
            job.wf(),
            need == job@.need_board(),
            n_draw == job@.n_draw(),
            scratch@.len() == n_draw,
            forall|q: int| 0 <= q < n_draw ==> scratch@[q] == drawn[q],
            fb@ == full_board(job@, drawn),
            0 <= k <= job.num_opponents,
            k > 0 ==> best_opp == best_opponent(job@, drawn, k as int),
        decreases job.num_opponents - k,
    {
        let opp7: [usize; 7] = [
            scratch[need + 2 * k],
            scratch[need + 2 * k + 1],
            fb[0],
            fb[1],
            fb[2],
            fb[3],
            fb[4],
        ];
        assert(opp7@ =~= opponent_seven(job@, drawn, k as int));
        let s = best_hand_score_7_indices(&opp7);
        if k == 0 || s < best_opp {
            best_opp = s;
        }
        k += 1;
    }
    if hero_score < best_opp {
        0
    } else if hero_score > best_opp {
        2
    } else {
        1
    }
}

/// Runs worker `k`'s chunk of trials and returns its `(win, tie, lose)`.
pub fn worker_counts(job: &SimJob, k: u64) -> (r: (u64, u64, u64))
    requires
        job.wf(),
    ensures
        worker_result_ok(job@, k as int, r),
{
    let mut rng = WorkerRng::new(job.seed, k);
    proof {
        let kk = k as int;
        let c = job.chunk as int;
        assert(0 <= kk * c <= kk * c + c < 0x1_0000_0000_0000_0000_0000_0000_0000_0000)
            by (nonlinear_arith)
            requires
                0 <= kk < 0x1_0000_0000_0000_0000,
                1 <= c < 0x1_0000_0000_0000_0000,
        ;
        assert((kk + 1) * c == kk * c + c) by (nonlinear_arith);
    }
    let start: u64 = if k as u128 * job.chunk as u128 >= job.trials as u128 {
        job.trials
    } else {
        k * job.chunk
    };
    let end: u64 = if (k as u128 + 1) * job.chunk as u128 >= job.trials as u128 {
        job.trials
    } else {
        ((k as u128 + 1) * job.chunk as u128) as u64
    };
    assert(start == job@.chunk_start(k as int));
    assert(end == job@.chunk_start(k as int + 1));
    let n_draw = job.num_opponents * 2 + 5 - job.board_len;
    let mut scratch: Vec<usize> = vec![0usize; n_draw];
    let dl = job.deck.len();
    let mut deck: Vec<usize> = vec![0usize; dl];
    let mut w: u64 = 0;
    let mut t: u64 = 0;
    let mut l: u64 = 0;
    let mut cur: u64 = start;
    let ghost mut ds: Seq<Seq<usize>> = Seq::empty();
    let ghost s0 = if job.seed is Some { worker_seed(job.seed->Some_0, k) } else { 0 };
    while cur < end
        invariant
            job.wf(),
            n_draw == job@.n_draw(),
            dl == job.deck@.len(),
            scratch@.len() == n_draw,
            deck@.len() == dl,
            start <= cur <= end,
            w + t + l == cur - start,
            job.seed is Some ==> rng is Seeded && {
                let c = seeded_counts(job@, s0, (cur - start) as nat);
                w == c.0 && t == c.1 && l == c.2 && rng->Seeded_0 == c.3
            },
            job.seed is Some ==> s0 == worker_seed(job.seed->Some_0, k),
            job.seed is None ==> rng is Thread,
            ds.len() == cur - start,
            all_deals(job@, ds),
            deal_counts(job@, ds) == (w as nat, t as nat, l as nat),
        decreases end - cur,
    {
        let mut q: usize = 0;
        while q < dl
            invariant
                dl == job.deck@.len(),
                deck@.len() == dl,
                0 <= q <= dl,
                forall|m: int| 0 <= m < q ==> deck@[m] == job.deck@[m],
            decreases dl - q,
        {
            deck.set(q, job.deck[q]);
            q += 1;
        }
        assert(deck@ =~= job.deck@);
        let res = run_one_trial(job, &mut deck, &mut rng, &mut scratch);
        if res == 0 {
            w += 1;
        } else if res == 1 {
            t += 1;
        } else {
            l += 1;
        }
        proof {
            let ds0 = ds;
            ds = ds.push(deck@);
            assert(ds.drop_last() =~= ds0);
        }
        cur += 1;
    }
    (w, t, l)
}

/// Relies on rayon's parallel iterator over the range `0..workers`: `map`
/// then `collect` into a `Vec` yields one result per worker id, in order,
/// each the return value of `worker_counts` for that id.
#[verifier::external_body]
fn run_workers(job: &SimJob, workers: u64) -> (r: Vec<(u64, u64, u64)>)
    requires
        job.wf(),
    ensures
        r@.len() == workers,
        forall|k: int| 0 <= k < workers ==> worker_result_ok(job@, k, #[trigger] r@[k]),
{
    (0..workers).into_par_iter().map(|k| worker_counts(job, k)).collect()
}

/// Relies on `rayon::current_num_threads`: the width of the worker pool.
#[verifier::external_body]
fn pool_width() -> usize {
    rayon::current_num_threads()
}

#[verifier::external_type_specification]
#[verifier::external_body]
pub struct ExInstant(std::time::Instant);

/// Relies on `std::time::Instant::now`.
#[verifier::external_body]
fn clock_now() -> std::time::Instant {
    std::time::Instant::now()
}

/// Relies on `std::time::Instant::elapsed`: whole milliseconds since `t`.
#[verifier::external_body]
fn millis_since(t: &std::time::Instant) -> u64 {
    t.elapsed().as_millis() as u64
}

/// Outcome counts of a simulation.
pub struct SimResult {
    pub win: u64,
    pub tie: u64,
    pub lose: u64,
    pub trials: u64,
    pub elapsed_ms: u64,
}

/// The job a simulation runs with `workers` workers.
pub open spec fn job_of(
    players: u32,
    hero: Seq<Card>,
    board: Seq<Card>,
    trials: u64,
    seed: Option<u64>,
    workers: u64,
) -> JobModel {
    let bl = board.len() as int;
    JobModel {
        hero: card_indices(hero),
        board: Seq::new(5, |k: int| if k < bl { board[k].index() as usize } else { 0usize }),
        board_len: bl,
        num_opponents: players - 1,
        deck: deck_below(hero + board, 52),
        trials: trials as int,
        chunk: trials / workers + if trials % workers != 0 { 1int } else { 0int },
        seed,
    }
}

/// Totals of the seeded counts of workers `0..k`.
pub open spec fn seeded_total(job: JobModel, k: int) -> (nat, nat, nat)
    decreases k,
{
    if k <= 0 {
        (0, 0, 0)
    } else {
        let p = seeded_total(job, k - 1);
        let c = seeded_counts(
            job,
            worker_seed(job.seed->Some_0, (k - 1) as u64),
            job.chunk_len(k - 1) as nat,
        );
        (p.0 + c.0, p.1 + c.1, p.2 + c.2)
    }
}

/// `(win, tie, lose)` of a seeded simulation run on `workers` workers.
pub open spec fn seeded_simulation(
    players: u32,
    hero: Seq<Card>,
    board: Seq<Card>,
    trials: u64,
    seed: u64,
    workers: u64,
) -> (nat, nat, nat) {
    seeded_total(job_of(players, hero, board, trials, Some(seed), workers), workers as int)
}

/// Runs `trials` trials on `workers` workers: trials are split into
/// contiguous chunks of `ceil(trials / workers)`, and worker `k` draws from
/// its own generator (seeded with `seed + k * 10^9` when a seed is given).
pub fn simulate_with_workers(
    players: u32,
    hero: &[Card],
    board: &[Card],
    trials: u64,
    seed: Option<u64>,
    workers: u64,
) -> (r: SimResult)
    requires
        2 <= players <= 10,
        hero@.len() == 2,
        board_len_ok(board@.len() as int),
        trials >= 1,
        workers >= 1,
    ensures
        r.win + r.tie + r.lose == trials,
        r.trials == trials,
        seed is Some ==> (r.win as nat, r.tie as nat, r.lose as nat) == seeded_simulation(
            players,
            hero@,
            board@,
            trials,
            seed->Some_0,
            workers,
        ),
        exists|ds: Seq<Seq<usize>>|
            {
                &&& ds.len() == trials
                &&& all_deals(job_of(players, hero@, board@, trials, seed, workers), ds)
                &&& #[trigger] deal_counts(job_of(players, hero@, board@, trials, seed, workers), ds)
                    == (r.win as nat, r.tie as nat, r.lose as nat)
            },
{
    let clock = clock_now();
    let mut known: Vec<Card> = Vec::new();
    known.push(hero[0]);
    known.push(hero[1]);
    let mut b: [usize; 5] = [0usize; 5];
    let mut i: usize = 0;
    while i < board.len()
        invariant
            0 <= i <= board@.len() <= 5,
            hero@.len() == 2,
            known@ == hero@ + board@.take(i as int),
            forall|k: int| 0 <= k < i ==> b@[k] == board@[k].index() as usize,
            forall|k: int| i <= k < 5 ==> b@[k] == 0,
        decreases board@.len() - i,
    {
        known.push(board[i]);
        b[i] = board[i].to_idx();
        assert(known@ =~= hero@ + board@.take(i as int + 1));
        i += 1;
    }
    assert(board@.take(board@.len() as int) =~= board@);
    let deck = build_deck(known.as_slice());
    proof {
        vstd::arithmetic::div_mod::lemma_fundamental_div_mod(trials as int, workers as int);
        if workers >= 2 {
            assert(trials / workers <= trials / 2) by (nonlinear_arith)
                requires
                    workers >= 2,
            ;
            vstd::arithmetic::div_mod::lemma_div_is_ordered_by_denominator(trials as int, 2, workers as int);
        }
    }
    let chunk: u64 = trials / workers + if trials % workers != 0 { 1 } else { 0 };
    let job = SimJob {
        hero: [hero[0].to_idx(), hero[1].to_idx()],
        board: b,
        board_len: board.len(),
        num_opponents: (players - 1) as usize,
        deck,
        trials,
        chunk,
        seed,
    };
    let ghost jm = job_of(players, hero@, board@, trials, seed, workers);
    proof {
        assert(job@.hero =~= jm.hero);
        assert(job@.board =~= jm.board);
        assert(job@ == jm);
        lemma_deck_len(hero@ + board@);
        let kn = hero@ + board@;
        assert forall|k: int| 0 <= k < job.deck@.len() implies job@.unknown(#[trigger] job.deck@[k]) by {
            let c = job.deck@[k];
            assert(job.deck@.contains(c));
            assert(!is_known(kn, c as int));
            assert(kn[0].index() == job.hero@[0]);
            assert(kn[1].index() == job.hero@[1]);
            assert forall|b: int| 0 <= b < job.board_len implies c != #[trigger] job.board@[b] by {
                assert(kn[2 + b].index() == job.board@[b]);
            }
        }
        let t = trials as int;
        let w = workers as int;
        let c = chunk as int;
        assert(c * w >= t && c >= 1) by (nonlinear_arith)
            requires
                c == t / w + if t % w != 0 { 1int } else { 0int },
                w >= 1,
                t >= 1,
                t == w * (t / w) + t % w,
                0 <= t % w < w,
        ;
    }
    let results = run_workers(&job, workers);
    let nres = results.len();
    let mut w: u64 = 0;
    let mut t: u64 = 0;
    let mut l: u64 = 0;
    let mut k: u64 = 0;
    let ghost mut all_ds: Seq<Seq<usize>> = Seq::empty();
    while k < workers
        invariant
            job.wf(),
            job@ == jm,
            jm.trials == trials as int,
            jm.chunk >= 1,
            jm.seed == seed,
            results@.len() == workers,
            nres == workers,
            forall|q: int| 0 <= q < workers ==> worker_result_ok(job@, q, #[trigger] results@[q]),
            0 <= k <= workers,
            w + t + l == jm.chunk_start(k as int),
            jm.chunk_start(k as int) <= trials,
            seed is Some ==> (w as nat, t as nat, l as nat) == seeded_total(jm, k as int),
            all_ds.len() == jm.chunk_start(k as int),
            all_deals(jm, all_ds),
            deal_counts(jm, all_ds) == (w as nat, t as nat, l as nat),
        decreases workers - k,
    {
        let (a, bb, c) = results[k as usize];
        proof {
            lemma_chunk_bounds(jm, k as int);
        }
        assert(worker_result_ok(job@, k as int, results@[k as int]));
        assert(seeded_total(jm, k as int + 1).0 == seeded_total(jm, k as int).0 + seeded_counts(
            jm,
            worker_seed(jm.seed->Some_0, k),
            jm.chunk_len(k as int) as nat,
        ).0);
        proof {
            let r = results@[k as int];
            let dk = choose|ds: Seq<Seq<usize>>|
                {
                    &&& ds.len() == jm.chunk_len(k as int)
                    &&& all_deals(jm, ds)
                    &&& #[trigger] deal_counts(jm, ds) == (r.0 as nat, r.1 as nat, r.2 as nat)
                };
            lemma_deal_counts_concat(jm, all_ds, dk);
            let prev = all_ds;
            all_ds = all_ds + dk;
            assert forall|i: int| 0 <= i < all_ds.len() implies is_deal(jm, #[trigger] all_ds[i]) by {
                if i < prev.len() {
                    assert(all_ds[i] == prev[i]);
                } else {
                    assert(all_ds[i] == dk[i - prev.len()]);
                }
            }
        }
        w = w + a;
        t = t + bb;
        l = l + c;
        k += 1;
    }
    proof {
        let ww = workers as int;
        let c = chunk as int;
        assert(ww * c >= trials as int) by (nonlinear_arith)
            requires
                c * ww >= trials as int,
        ;
    }
    SimResult { win: w, tie: t, lose: l, trials, elapsed_ms: millis_since(&clock) }
}

/// Runs `trials` trials on the worker pool (one worker per pool thread).
pub fn simulate(players: u32, hero: &[Card], board: &[Card], trials: u64, seed: Option<u64>) -> (r:
    SimResult)
    requires
        2 <= players <= 10,
        hero@.len() == 2,
        board_len_ok(board@.len() as int),
        trials >= 1,
    ensures
        r.win + r.tie + r.lose == trials,
        r.trials == trials,
        exists|w: u64, ds: Seq<Seq<usize>>|
            {
                &&& w >= 1
                &&& ds.len() == trials
                &&& all_deals(job_of(players, hero@, board@, trials, seed, w), ds)
                &&& #[trigger] deal_counts(job_of(players, hero@, board@, trials, seed, w), ds)
                    == (r.win as nat, r.tie as nat, r.lose as nat)
            },
        seed is Some ==> exists|w: u64|
            w >= 1 && (r.win as nat, r.tie as nat, r.lose as nat) == #[trigger] seeded_simulation(
                players,
                hero@,
                board@,
                trials,
                seed->Some_0,
                w,
            ),
{
    let width = pool_width();
    let workers: u64 = if width == 0 { 1 } else { width as u64 };
    simulate_with_workers(players, hero, board, trials, seed, workers)
}

/// A seeded run is reproducible: two runs with the same players, hero,
/// board, trials, seed and worker count give the same counts.
pub proof fn lemma_seeded_runs_reproducible(
    players: u32,
    hero: Seq<Card>,
    board: Seq<Card>,
    trials: u64,
    seed: u64,
    workers: u64,
    r1: SimResult,
    r2: SimResult,
)
    requires
        (r1.win as nat, r1.tie as nat, r1.lose as nat) == seeded_simulation(
            players,
            hero,
            board,
            trials,
            seed,
            workers,
        ),
        (r2.win as nat, r2.tie as nat, r2.lose as nat) == seeded_simulation(
            players,
            hero,
            board,
            trials,
            seed,
            workers,
        ),
    ensures
        r1.win == r2.win && r1.tie == r2.tie && r1.lose == r2.lose,
{
}

/// Trial count of a preset name that is already lower-case: `fast` 50 000,
/// `high` 1 000 000, anything else (`standard` included) 200 000.
pub open spec fn preset_trials(p: Seq<char>) -> u64 {
    if p == "fast"@ {
        50_000
    } else if p == "high"@ {
        1_000_000
    } else {
        200_000
    }
}

/// What `str::to_lowercase` makes of a string.
pub uninterp spec fn lower_of(s: Seq<char>) -> Seq<char>;

/// Relies on `str::to_lowercase`: the result depends on the characters alone.
#[verifier::external_body]
fn lowercase(s: &str) -> (r: String)
    ensures
        r@ == lower_of(s@),
{
    s.to_lowercase()
}

/// Whether two strings hold the same characters.
pub fn same_text(a: &str, b: &str) -> (r: bool)
    ensures
        r == (a@ == b@),
{
    let n = a.unicode_len();
    if n != b.unicode_len() {
        return false;
    }
    let mut i: usize = 0;
    while i < n
        invariant
            n == a@.len() == b@.len(),
            0 <= i <= n,
            forall|k: int| 0 <= k < i ==> a@[k] == b@[k],
        decreases n - i,
    {
        if a.get_char(i) != b.get_char(i) {
            return false;
        }
        i += 1;
    }
    assert(a@ =~= b@);
    true
}

/// Trial count of a lower-case preset name.
pub fn trials_for_lowered_preset(p: &str) -> (r: u64)
    ensures
        r == preset_trials(p@),
{
    if same_text(p, "fast") {
        50_000
    } else if same_text(p, "high") {
        1_000_000
    } else {
        200_000
    }
}

/// Trial count of a preset, case-insensitive: `fast` 50 000, `standard`
/// 200 000, `high` 1 000 000, anything else 200 000.
pub fn trials_for_preset(preset: &str) -> (r: u64)
    ensures
        r == preset_trials(lower_of(preset@)),
{
    let p = lowercase(preset);
    trials_for_lowered_preset(p.as_str())
}

proof fn lemma_count_ascending(s: Seq<usize>, x: usize)
    requires
        strictly_ascending(s),
    ensures
        s.to_multiset().count(x) <= 1,
    decreases s.len(),
{
    broadcast use vstd::seq_lib::group_to_multiset_ensures;

    if s.len() > 0 {
        let d = s.drop_last();
        lemma_count_ascending(d, x);
        assert(s =~= d.push(s.last()));
        if x == s.last() {
            assert(!d.contains(x));
        }
    }
}

proof fn lemma_perm_distinct(a: Seq<usize>, b: Seq<usize>)
    requires
        strictly_ascending(a),
        a.to_multiset() == b.to_multiset(),
    ensures
        forall|i: int, j: int| 0 <= i < j < b.len() ==> b[i] != b[j],
{
    broadcast use vstd::seq_lib::group_to_multiset_ensures;

    assert forall|i: int, j: int| 0 <= i < j < b.len() implies b[i] != b[j] by {
        if b[i] == b[j] {
            let x = b[i];
            let r = b.remove(j);
            assert(r[i] == x);
            assert(r.contains(x));
            assert(r.to_multiset().count(x) >= 1);
            assert(b.to_multiset().count(x) >= 2);
            lemma_count_ascending(a, x);
        }
    }
}

proof fn lemma_perm_member(a: Seq<usize>, b: Seq<usize>, k: int)
    requires
        a.to_multiset() == b.to_multiset(),
        0 <= k < b.len(),
    ensures
        exists|p: int| 0 <= p < a.len() && a[p] == b[k],
{
    broadcast use vstd::seq_lib::group_to_multiset_ensures;

    assert(b.to_multiset().count(b[k]) > 0);
    assert(a.contains(b[k]));
}

pub(crate) proof fn lemma_hero_score_swap(a: usize, b: usize, f: Seq<usize>)
    requires
        f.len() == 5,
    ensures
        best_score(seq![a, b] + f) == best_score(seq![b, a] + f),
{
    broadcast use vstd::seq_lib::group_to_multiset_ensures;

    let x = seq![a, b] + f;
    let y = seq![b, a] + f;
    vstd::seq_lib::lemma_multiset_commutative(seq![a, b], f);
    vstd::seq_lib::lemma_multiset_commutative(seq![b, a], f);
    let e = Seq::<usize>::empty();
    assert(seq![a, b] =~= e.push(a).push(b));
    assert(seq![b, a] =~= e.push(b).push(a));
    assert(seq![a, b].to_multiset() =~= seq![b, a].to_multiset());
    lemma_best_exists(x);
    lemma_best_exists(y);
    lemma_best_score_permutation(x, y, best_score(x), best_score(y));
}

/// `j2` is `j1` with its two hero cards in the other order.
pub open spec fn hero_swapped(j1: JobModel, j2: JobModel) -> bool {
    &&& j1.hero.len() == 2
    &&& j2.hero == seq![j1.hero[1], j1.hero[0]]
    &&& j2.board == j1.board
    &&& j2.board_len == j1.board_len
    &&& j2.num_opponents == j1.num_opponents
    &&& j2.deck == j1.deck
    &&& j2.trials == j1.trials
    &&& j2.chunk == j1.chunk
    &&& j2.seed == j1.seed
}

proof fn lemma_best_opponent_same(j1: JobModel, j2: JobModel, drawn: Seq<usize>, k: int)
    requires
        hero_swapped(j1, j2),
    ensures
        best_opponent(j1, drawn, k) == best_opponent(j2, drawn, k),
    decreases k,
{
    assert(full_board(j1, drawn) =~= full_board(j2, drawn));
    assert(opponent_seven(j1, drawn, 0) =~= opponent_seven(j2, drawn, 0));
    if k > 1 {
        lemma_best_opponent_same(j1, j2, drawn, k - 1);
        assert(opponent_seven(j1, drawn, k - 1) =~= opponent_seven(j2, drawn, k - 1));
    }
}

proof fn lemma_counts_hero_swap(j1: JobModel, j2: JobModel, s: u64, n: nat)
    requires
        hero_swapped(j1, j2),
    ensures
        seeded_counts(j1, s, n) == seeded_counts(j2, s, n),
    decreases n,
{
    if n > 0 {
        lemma_counts_hero_swap(j1, j2, s, (n - 1) as nat);
        let st = seeded_counts(j1, s, (n - 1) as nat).3;
        let drawn = fisher_yates(j1.deck, 0, j1.n_draw(), st).0;
        let fb = full_board(j1, drawn);
        assert(full_board(j1, drawn) =~= full_board(j2, drawn));
        lemma_best_opponent_same(j1, j2, drawn, j1.num_opponents);
        lemma_hero_score_swap(j1.hero[0], j1.hero[1], fb);
        assert(seq![j2.hero[0], j2.hero[1]] =~= seq![j1.hero[1], j1.hero[0]]);
        assert(seeded_trial(j1, st) == seeded_trial(j2, st));
    }
}

proof fn lemma_total_hero_swap(j1: JobModel, j2: JobModel, k: int)
    requires
        hero_swapped(j1, j2),
    ensures
        seeded_total(j1, k) == seeded_total(j2, k),
    decreases k,
{
    if k > 0 {
        lemma_total_hero_swap(j1, j2, k - 1);
        lemma_counts_hero_swap(
            j1,
            j2,
            worker_seed(j1.seed->Some_0, (k - 1) as u64),
            j1.chunk_len(k - 1) as nat,
        );
    }
}

proof fn lemma_deck_same(k1: Seq<Card>, k2: Seq<Card>, n: int)
    requires
        forall|i: int| #[trigger] is_known(k1, i) == is_known(k2, i),
    ensures
        deck_below(k1, n) == deck_below(k2, n),
    decreases n,
{
    if n > 0 {
        lemma_deck_same(k1, k2, n - 1);
        assert(is_known(k1, n - 1) == is_known(k2, n - 1));
    }
}

/// The order of the two hero cards does not matter: a seeded simulation of
/// `(x, y)` and of `(y, x)` gives the same counts.
pub proof fn lemma_hero_order_irrelevant(
    players: u32,
    x: Card,
    y: Card,
    board: Seq<Card>,
    trials: u64,
    seed: u64,
    workers: u64,
)
    ensures
        seeded_simulation(players, seq![x, y], board, trials, seed, workers) == seeded_simulation(
            players,
            seq![y, x],
            board,
            trials,
            seed,
            workers,
        ),
{
    let j1 = job_of(players, seq![x, y], board, trials, Some(seed), workers);
    let j2 = job_of(players, seq![y, x], board, trials, Some(seed), workers);
    let k1 = seq![x, y] + board;
    let k2 = seq![y, x] + board;
    assert forall|i: int| #[trigger] is_known(k1, i) == is_known(k2, i) by {
        if is_known(k1, i) {
            let w = choose|w: int| 0 <= w < k1.len() && #[trigger] k1[w].index() == i;
            let v = if w == 0 { 1int } else if w == 1 { 0int } else { w };
            assert(k2[v] == k1[w]);
        }
        if is_known(k2, i) {
            let w = choose|w: int| 0 <= w < k2.len() && #[trigger] k2[w].index() == i;
            let v = if w == 0 { 1int } else if w == 1 { 0int } else { w };
            assert(k1[v] == k2[w]);
        }
    }
    lemma_deck_same(k1, k2, 52);
    assert(j2.hero =~= seq![j1.hero[1], j1.hero[0]]);
    assert(hero_swapped(j1, j2));
    lemma_total_hero_swap(j1, j2, workers as int);
}

proof fn lemma_chunk_bounds(jm: JobModel, k: int)
    requires
        jm.chunk >= 1,
        k >= 0,
        jm.trials >= 0,
    ensures
        0 <= jm.chunk_start(k) <= jm.chunk_start(k + 1) <= jm.trials,
{
    assert(0 <= k * jm.chunk <= (k + 1) * jm.chunk) by (nonlinear_arith)
        requires
            jm.chunk >= 1,
            k >= 0,
    ;
}

proof fn lemma_deck_len(known: Seq<Card>)
    ensures
        deck_below(known, 52).len() >= 52 - known.len(),
{
    lemma_deck_below_len(known, 52);
    lemma_count_below_le(known, 52);
}

/// Number of indices below `n` that some card of `known` has.
pub open spec fn known_below(known: Seq<Card>, n: int) -> nat
    decreases n,
{
    if n <= 0 {
        0
    } else {
        known_below(known, n - 1) + if is_known(known, n - 1) { 1nat } else { 0nat }
    }
}

/// Number of cards of `known` whose index is below `n`.
pub open spec fn count_below(known: Seq<Card>, n: int) -> nat
    decreases known.len(),
{
    if known.len() == 0 {
        0
    } else {
        count_below(known.drop_last(), n) + if known.last().index() < n { 1nat } else { 0nat }
    }
}

/// Number of cards of `known` whose index is `n`.
pub open spec fn count_at(known: Seq<Card>, n: int) -> nat
    decreases known.len(),
{
    if known.len() == 0 {
        0
    } else {
        count_at(known.drop_last(), n) + if known.last().index() == n { 1nat } else { 0nat }
    }
}

proof fn lemma_count_step(known: Seq<Card>, n: int)
    ensures
        count_below(known, n + 1) == count_below(known, n) + count_at(known, n),
        is_known(known, n) ==> count_at(known, n) >= 1,
    decreases known.len(),
{
    if known.len() > 0 {
        let d = known.drop_last();
        lemma_count_step(d, n);
        if is_known(known, n) && known.last().index() != n {
            let k = choose|k: int| 0 <= k < known.len() && #[trigger] known[k].index() == n;
            assert(d[k].index() == n);
            assert(is_known(d, n));
        }
    }
}

proof fn lemma_count_below_le(known: Seq<Card>, n: int)
    ensures
        count_below(known, n) <= known.len(),
    decreases known.len(),
{
    if known.len() > 0 {
        lemma_count_below_le(known.drop_last(), n);
    }
}

proof fn lemma_deck_below_len(known: Seq<Card>, n: int)
    requires
        0 <= n,
    ensures
        deck_below(known, n).len() + known_below(known, n) == n,
        known_below(known, n) <= count_below(known, n),
    decreases n,
{
    if n > 0 {
        lemma_deck_below_len(known, n - 1);
        lemma_count_step(known, n - 1);
    }
}

} // verus!
