//! Seven-card evaluator: the best five-card score, lower is stronger.
use vstd::prelude::*;
use crate::cards::Card;

verus! {

/// Number of cards of `h` whose rank (`index % 13`) is `r`.
pub open spec fn rank_count(h: Seq<usize>, r: int) -> nat
    decreases h.len(),
{
    if h.len() == 0 {
        0
    } else {
        rank_count(h.drop_last(), r) + if h.last() % 13 == r { 1nat } else { 0nat }
    }
}

/// Tie-break strength of a rank: 0 for an ace up to 12 for a deuce, so
/// that a lower key is a stronger hand.
pub open spec fn strength(r: int) -> int {
    12 - r
}

/// Strengths of the ranks above `lo` that occur exactly `c` times in `h`,
/// higher ranks first, each repeated `c` times.
pub open spec fn count_class(h: Seq<usize>, c: nat, lo: int) -> Seq<int>
    decreases 12 - lo,
{
    if lo >= 12 {
        Seq::empty()
    } else {
        count_class(h, c, lo + 1) + if rank_count(h, lo + 1) == c {
            Seq::new(c, |_k: int| strength(lo + 1))
        } else {
            Seq::empty()
        }
    }
}

/// The count classes larger than `c` (down from five), largest first.
pub open spec fn classes_above(h: Seq<usize>, c: nat) -> Seq<int>
    decreases 5 - c,
{
    if c >= 5 {
        Seq::empty()
    } else {
        classes_above(h, (c + 1) as nat) + count_class(h, (c + 1) as nat, -1)
    }
}

/// Strengths of the cards in tie-break order: larger rank groups first,
/// then higher ranks.
pub open spec fn tie_break_order(h: Seq<usize>) -> Seq<int> {
    classes_above(h, 0)
}

/// At most the first five entries.
pub open spec fn first_five(s: Seq<int>) -> Seq<int> {
    if s.len() <= 5 {
        s
    } else {
        s.take(5)
    }
}

/// The kicker key: five strength nibbles in tie-break order; the wheel
/// (A-2-3-4-5) counts as five-high, its ace below the deuce.
pub open spec fn kicker(h: Seq<usize>) -> int {
    if is_wheel(h) {
        0x9ABCD
    } else {
        nibbles(first_five(tie_break_order(h)))
    }
}

/// The ranks read as base-16 digits, first one most significant: for five
/// ranks, `sum of rank[i] << 4 * (4 - i)`.
pub open spec fn nibbles(s: Seq<int>) -> int
    decreases s.len(),
{
    if s.len() == 0 {
        0
    } else {
        nibbles(s.drop_last()) * 16 + s.last()
    }
}

/// All five cards share a suit (`index / 13`).
pub open spec fn is_flush(h: Seq<usize>) -> bool {
    h[1] / 13 == h[0] / 13 && h[2] / 13 == h[0] / 13 && h[3] / 13 == h[0] / 13 && h[4] / 13
        == h[0] / 13
}

/// Ranks `lo .. lo + 4` each occur exactly once.
pub open spec fn run_at(h: Seq<usize>, lo: int) -> bool {
    rank_count(h, lo) == 1 && rank_count(h, lo + 1) == 1 && rank_count(h, lo + 2) == 1
        && rank_count(h, lo + 3) == 1 && rank_count(h, lo + 4) == 1
}

/// A-2-3-4-5.
pub open spec fn is_wheel(h: Seq<usize>) -> bool {
    rank_count(h, 0) == 1 && rank_count(h, 1) == 1 && rank_count(h, 2) == 1 && rank_count(h, 3)
        == 1 && rank_count(h, 12) == 1
}

/// Five consecutive ranks, or the wheel.
pub open spec fn is_straight(h: Seq<usize>) -> bool {
    is_wheel(h) || exists|lo: int| 0 <= lo <= 8 && #[trigger] run_at(h, lo)
}

/// Number of ranks below `upto` that occur exactly `k` times in `h`.
pub open spec fn ranks_with_count(h: Seq<usize>, k: nat, upto: int) -> nat
    decreases upto,
{
    if upto <= 0 {
        0
    } else {
        ranks_with_count(h, k, upto - 1) + if rank_count(h, upto - 1) == k { 1nat } else { 0nat }
    }
}

/// Category code: 0 straight flush, 1 quads, 2 full house, 3 flush,
/// 4 straight, 5 trips, 6 two pair, 7 pair, 8 high card.
pub open spec fn category(h: Seq<usize>) -> int {
    let quads = ranks_with_count(h, 4, 13);
    let trips = ranks_with_count(h, 3, 13);
    let pairs = ranks_with_count(h, 2, 13);
    if is_flush(h) && is_straight(h) {
        0
    } else if quads >= 1 {
        1
    } else if trips >= 1 && pairs >= 1 {
        2
    } else if is_flush(h) {
        3
    } else if is_straight(h) {
        4
    } else if trips >= 1 {
        5
    } else if pairs >= 2 {
        6
    } else if pairs >= 1 {
        7
    } else {
        8
    }
}

/// Score of five cards: the category in bits 24..28, the kicker key in
/// bits 0..20. Lower is stronger.
pub open spec fn score5(h: Seq<usize>) -> int {
    category(h) * 0x1000000 + kicker(h)
}

/// Position in the seven cards of the `k`-th card kept when `i < j` are left out.
pub open spec fn kept_pos(i: int, j: int, k: int) -> int {
    if k < i {
        k
    } else if k + 1 < j {
        k + 1
    } else {
        k + 2
    }
}

/// The five cards left when positions `i < j` are taken out of seven.
pub open spec fn without_pair(h: Seq<usize>, i: int, j: int) -> Seq<usize> {
    Seq::new(5, |k: int| h[kept_pos(i, j, k)])
}

/// `s` is the best (lowest) five-card score among the 21 subsets of `h`.
pub open spec fn is_best_of_seven(h: Seq<usize>, s: int) -> bool {
    &&& exists|i: int, j: int|
        0 <= i < j < 7 && s == #[trigger] score5(without_pair(h, i, j))
    &&& forall|i: int, j: int| 0 <= i < j < 7 ==> s <= #[trigger] score5(without_pair(h, i, j))
}

/// The best five-card score of seven cards.
pub open spec fn best_score(h: Seq<usize>) -> int {
    choose|s: int| is_best_of_seven(h, s)
}

/// The card indices of a hand.
pub open spec fn card_indices(cards: Seq<Card>) -> Seq<usize> {
    Seq::new(cards.len(), |i: int| cards[i].index() as usize)
}

proof fn lemma_rank_count_le(h: Seq<usize>, r: int)
    ensures
        rank_count(h, r) <= h.len(),
    decreases h.len(),
{
    if h.len() > 0 {
        lemma_rank_count_le(h.drop_last(), r);
    }
}

proof fn lemma_nibbles_push(s: Seq<int>, x: int)
    ensures
        nibbles(s.push(x)) == nibbles(s) * 16 + x,
{
    assert(s.push(x).drop_last() =~= s);
}

proof fn lemma_first_five_push(s: Seq<int>, x: int)
    ensures
        s.len() < 5 ==> first_five(s.push(x)) == first_five(s).push(x),
        s.len() >= 5 ==> first_five(s.push(x)) == first_five(s),
{
    if s.len() >= 5 {
        assert(s.push(x).take(5) =~= s.take(5));
        if s.len() == 5 {
            assert(s.take(5) =~= s);
        }
    }
}

/// Scores five cards given as indices; lower is stronger.
fn eval5(h: &[usize; 5]) -> (r: u32)
    ensures
        r == score5(h@),
{
    let ghost hs = h@;
    let mut cnt: [u8; 13] = [0u8; 13];
    let mut i: usize = 0;
    while i < 5
        invariant
            0 <= i <= 5,
            hs == h@,
            forall|q: int| 0 <= q < 13 ==> cnt@[q] == rank_count(hs.take(i as int), q),
        decreases 5 - i,
    {
        let rk = h[i] % 13;
        proof {
            assert(hs.take(i as int + 1).drop_last() =~= hs.take(i as int));
            lemma_rank_count_le(hs.take(i as int), rk as int);
        }
        cnt[rk] = cnt[rk] + 1;
        i += 1;
    }
    assert(hs.take(5) =~= hs);
    let s0 = h[0] / 13;
    let flush = h[1] / 13 == s0 && h[2] / 13 == s0 && h[3] / 13 == s0 && h[4] / 13 == s0;
    let wheel = cnt[0] == 1 && cnt[1] == 1 && cnt[2] == 1 && cnt[3] == 1 && cnt[12] == 1;
    let mut straight = wheel;
    let mut lo: usize = 0;
    while lo <= 8
        invariant
            0 <= lo <= 9,
            forall|q: int| 0 <= q < 13 ==> cnt@[q] == rank_count(hs, q),
            straight == (is_wheel(hs) || exists|l: int| 0 <= l < lo && #[trigger] run_at(hs, l)),
        decreases 9 - lo,
    {
        if cnt[lo] == 1 && cnt[lo + 1] == 1 && cnt[lo + 2] == 1 && cnt[lo + 3] == 1 && cnt[lo
            + 4] == 1 {
            assert(run_at(hs, lo as int));
            straight = true;
        }
        lo += 1;
    }
    let mut quads: u8 = 0;
    let mut trips: u8 = 0;
    let mut pairs: u8 = 0;
    let mut q: usize = 0;
    while q < 13
        invariant
            0 <= q <= 13,
            forall|x: int| 0 <= x < 13 ==> cnt@[x] == rank_count(hs, x),
            quads == ranks_with_count(hs, 4, q as int),
            trips == ranks_with_count(hs, 3, q as int),
            pairs == ranks_with_count(hs, 2, q as int),
            quads <= q && trips <= q && pairs <= q,
        decreases 13 - q,
    {
        if cnt[q] == 4 {
            quads += 1;
        }
        if cnt[q] == 3 {
            trips += 1;
        }
        if cnt[q] == 2 {
            pairs += 1;
        }
        q += 1;
    }
    let cat: u32 = if flush && straight {
        0
    } else if quads >= 1 {
        1
    } else if trips >= 1 && pairs >= 1 {
        2
    } else if flush {
        3
    } else if straight {
        4
    } else if trips >= 1 {
        5
    } else if pairs >= 2 {
        6
    } else if pairs >= 1 {
        7
    } else {
        8
    };
    let kick: u32 = if wheel {
        0x9ABCD
    } else {
        let mut kk: u32 = 0;
        let mut len: usize = 0;
        let ghost mut em: Seq<int> = Seq::empty();
        let mut c: u8 = 5;
        while c >= 1
            invariant
                0 <= c <= 5,
                hs.len() == 5,
                forall|x: int| 0 <= x < 13 ==> cnt@[x] == rank_count(hs, x),
                em == classes_above(hs, c as nat),
                kk == nibbles(first_five(em)),
                len == first_five(em).len(),
                len <= 5,
                0 <= nibbles(first_five(em)) < pow16(len as nat),
            decreases c,
        {
            let ghost base = em;
            let mut r: usize = 13;
            while r > 0
                invariant
                    1 <= c <= 5,
                    0 <= r <= 13,
                    hs.len() == 5,
                    forall|x: int| 0 <= x < 13 ==> cnt@[x] == rank_count(hs, x),
                    base == classes_above(hs, c as nat),
                    em == base + count_class(hs, c as nat, r - 1),
                    kk == nibbles(first_five(em)),
                    len == first_five(em).len(),
                    len <= 5,
                    0 <= nibbles(first_five(em)) < pow16(len as nat),
                decreases r,
            {
                r -= 1;
                let ghost mid = em;
                if cnt[r] == c {
                    let mut m: u8 = 0;
                    while m < c
                        invariant
                            1 <= c <= 5,
                            0 <= r < 13,
                            0 <= m <= c,
                            em == mid + Seq::new(m as nat, |_k: int| strength(r as int)),
                            kk == nibbles(first_five(em)),
                            len == first_five(em).len(),
                            len <= 5,
                            0 <= nibbles(first_five(em)) < pow16(len as nat),
                        decreases c - m,
                    {
                        proof {
                            lemma_first_five_push(em, strength(r as int));
                        }
                        if len < 5 {
                            proof {
                                let f = first_five(em);
                                lemma_nibbles_push(f, strength(r as int));
                                lemma_pow16_step(len as nat);
                                lemma_pow16_mono((len + 1) as nat, 5);
                                assert(pow16(5) == 0x100000) by {
                                    reveal_with_fuel(pow16, 6);
                                }
                                let n = nibbles(f);
                                let p = pow16(len as nat);
                                let x = strength(r as int);
                                assert(n * 16 + x < p * 16) by (nonlinear_arith)
                                    requires
                                        0 <= n < p,
                                        0 <= x < 16,
                                ;
                            }
                            kk = kk * 16 + (12 - r as u32);
                            len += 1;
                        }
                        proof {
                            em = em.push(strength(r as int));
                            assert(em =~= mid + Seq::new((m + 1) as nat, |_k: int| strength(r as int)));
                        }
                        m += 1;
                    }
                }
                assert(em =~= base + count_class(hs, c as nat, r - 1));
            }
            c -= 1;
        }
        proof {
            lemma_pow16_mono(len as nat, 5);
            assert(pow16(5) == 0x100000) by {
                reveal_with_fuel(pow16, 6);
            }
        }
        kk
    };
    let kicker = kick;
    cat * 0x1000000 + kicker
}

/// Powers of 16.
pub open spec fn pow16(n: nat) -> int
    decreases n,
{
    if n == 0 {
        1
    } else {
        16 * pow16((n - 1) as nat)
    }
}

proof fn lemma_pow16_step(n: nat)
    ensures
        pow16(n + 1) == 16 * pow16(n),
{
}

proof fn lemma_pow16_mono(a: nat, b: nat)
    requires
        a <= b,
    ensures
        1 <= pow16(a) <= pow16(b),
    decreases b,
{
    if a < b {
        lemma_pow16_mono(a, (b - 1) as nat);
    } else if a > 0 {
        lemma_pow16_mono((a - 1) as nat, (a - 1) as nat);
    }
}

/// Best five-card score of seven cards (indices); lower is stronger.
/// Allocation-free: all buffers are fixed-size arrays.
pub fn best_hand_score_7_indices(indices: &[usize; 7]) -> (r: u32)
    ensures
        is_best_of_seven(indices@, r as int),
        r == best_score(indices@),
{
    let ghost h = indices@;
    let mut best: u32 = u32::MAX;
    let ghost mut bi: int = 0;
    let ghost mut bj: int = 1;
    let mut i: usize = 0;
    while i < 7
        invariant
            0 <= i <= 7,
            h == indices@,
            h.len() == 7,
            i > 0 ==> 0 <= bi < bj < 7 && best == score5(without_pair(h, bi, bj)),
            forall|a: int, b: int|
                0 <= a < b < 7 && a < i ==> best <= #[trigger] score5(without_pair(h, a, b)),
        decreases 7 - i,
    {
        let mut j: usize = i + 1;
        while j < 7
            invariant
                0 <= i < 7,
                i + 1 <= j <= 7,
                h == indices@,
                h.len() == 7,
                (i > 0 || j > i + 1) ==> 0 <= bi < bj < 7 && best == score5(
                    without_pair(h, bi, bj),
                ),
                forall|a: int, b: int|
                    0 <= a < b < 7 && (a < i || (a == i && b < j)) ==> best
                        <= #[trigger] score5(without_pair(h, a, b)),
            decreases 7 - j,
        {
            let mut c: [usize; 5] = [0usize; 5];
            let mut k: usize = 0;
            while k < 5
                invariant
                    0 <= k <= 5,
                    0 <= i < j < 7,
                    h == indices@,
                    h.len() == 7,
                    forall|m: int| 0 <= m < k ==> c@[m] == h[kept_pos(i as int, j as int, m)],
                decreases 5 - k,
            {
                let p = if k < i {
                    k
                } else if k + 1 < j {
                    k + 1
                } else {
                    k + 2
                };
                c[k] = indices[p];
                k += 1;
            }
            assert(c@ =~= without_pair(h, i as int, j as int));
            let score = eval5(&c);
            if score < best || (i == 0 && j == 1) {
                best = score;
                proof {
                    bi = i as int;
                    bj = j as int;
                }
            }
            j += 1;
        }
        i += 1;
    }
    proof {
        let b = best as int;
        assert(is_best_of_seven(h, b));
        lemma_best_of_seven_unique(h, b, best_score(h));
    }
    best
}

/// Best five-card score of a seven-card hand; `u32::MAX` for any other
/// number of cards.
pub fn best_hand_score_7(cards: &[Card]) -> (r: u32)
    ensures
        cards@.len() != 7 ==> r == u32::MAX,
        cards@.len() == 7 ==> is_best_of_seven(card_indices(cards@), r as int),
{
    if cards.len() != 7 {
        return u32::MAX;
    }
    let mut idx: [usize; 7] = [0usize; 7];
    let mut i: usize = 0;
    while i < 7
        invariant
            0 <= i <= 7,
            cards@.len() == 7,
            forall|m: int| 0 <= m < i ==> idx@[m] == card_indices(cards@)[m],
        decreases 7 - i,
    {
        idx[i] = cards[i].to_idx();
        i += 1;
    }
    assert(idx@ =~= card_indices(cards@));
    best_hand_score_7_indices(&idx)
}

/// The best score of seven cards is unique.
pub proof fn lemma_best_of_seven_unique(h: Seq<usize>, s: int, t: int)
    requires
        is_best_of_seven(h, s),
        is_best_of_seven(h, t),
    ensures
        s == t,
{
    let (i, j) = choose|i: int, j: int| 0 <= i < j < 7 && s == #[trigger] score5(without_pair(h, i, j));
    let (k, l) = choose|i: int, j: int| 0 <= i < j < 7 && t == #[trigger] score5(without_pair(h, i, j));
    assert(t <= score5(without_pair(h, i, j)));
    assert(s <= score5(without_pair(h, k, l)));
}

proof fn lemma_nibbles_bound(s: Seq<int>)
    requires
        forall|k: int| 0 <= k < s.len() ==> 0 <= #[trigger] s[k] < 16,
    ensures
        0 <= nibbles(s) < pow16(s.len()),
    decreases s.len(),
{
    if s.len() > 0 {
        lemma_nibbles_bound(s.drop_last());
        let n = nibbles(s.drop_last());
        let p = pow16(s.drop_last().len());
        let x = s.last();
        assert(0 <= n * 16 + x < p * 16) by (nonlinear_arith)
            requires
                0 <= n < p,
                0 <= x < 16,
        ;
    }
}

/// The category field dominates: a five-card score lies in
/// `[category << 24, (category << 24) + 2^20)`.
pub proof fn lemma_score5_layout(h: Seq<usize>)
    requires
        h.len() == 5,
    ensures
        category(h) * 0x1000000 <= score5(h) < category(h) * 0x1000000 + 0x100000,
{
    if !is_wheel(h) {
        let f = first_five(tie_break_order(h));
        lemma_class_values(h, 0);
        assert forall|k: int| 0 <= k < f.len() implies 0 <= #[trigger] f[k] < 16 by {
            assert(f[k] == tie_break_order(h)[k]);
        }
        lemma_nibbles_bound(f);
        lemma_pow16_mono(f.len(), 5);
        assert(pow16(5) == 0x100000) by {
            reveal_with_fuel(pow16, 6);
        }
    }
}

proof fn lemma_count_class_values(h: Seq<usize>, c: nat, lo: int)
    requires
        -1 <= lo,
    ensures
        forall|k: int| 0 <= k < count_class(h, c, lo).len() ==> 0 <= #[trigger] count_class(h, c, lo)[k] <= 12,
    decreases 12 - lo,
{
    if lo < 12 {
        lemma_count_class_values(h, c, lo + 1);
        let a = count_class(h, c, lo + 1);
        let b: Seq<int> = if rank_count(h, lo + 1) == c {
            Seq::new(c, |_k: int| strength(lo + 1))
        } else {
            Seq::empty()
        };
        assert(count_class(h, c, lo) == a + b);
        assert forall|k: int| 0 <= k < count_class(h, c, lo).len() implies 0 <= #[trigger] count_class(h, c, lo)[k] <= 12 by {
            if k < a.len() {
                assert(count_class(h, c, lo)[k] == a[k]);
            } else {
                assert(count_class(h, c, lo)[k] == b[k - a.len()]);
            }
        }
    }
}

proof fn lemma_class_values(h: Seq<usize>, c: nat)
    ensures
        forall|k: int| 0 <= k < classes_above(h, c).len() ==> 0 <= #[trigger] classes_above(h, c)[k] <= 12,
    decreases 5 - c,
{
    if c < 5 {
        lemma_class_values(h, (c + 1) as nat);
        lemma_count_class_values(h, (c + 1) as nat, -1);
        let a = classes_above(h, (c + 1) as nat);
        let b = count_class(h, (c + 1) as nat, -1);
        assert forall|k: int| 0 <= k < classes_above(h, c).len() implies 0 <= #[trigger] classes_above(h, c)[k] <= 12 by {
            if k < a.len() {
                assert(classes_above(h, c)[k] == a[k]);
            } else {
                assert(classes_above(h, c)[k] == b[k - a.len()]);
            }
        }
    }
}

/// Any seven cards holding a straight flush score strictly better (lower)
/// than any seven cards whose every five-card subset is a high-card hand.
pub proof fn lemma_straight_flush_beats_high_card(a: Seq<usize>, sa: int, b: Seq<usize>, sb: int)
    requires
        a.len() == 7,
        b.len() == 7,
        is_best_of_seven(a, sa),
        is_best_of_seven(b, sb),
        exists|i: int, j: int| 0 <= i < j < 7 && #[trigger] category(without_pair(a, i, j)) == 0,
        forall|i: int, j: int| 0 <= i < j < 7 ==> #[trigger] category(without_pair(b, i, j)) == 8,
    ensures
        sa < sb,
{
    let (i, j) = choose|i: int, j: int| 0 <= i < j < 7 && #[trigger] category(without_pair(a, i, j)) == 0;
    lemma_score5_layout(without_pair(a, i, j));
    let (k, l) = choose|k: int, l: int| 0 <= k < l < 7 && sb == #[trigger] score5(without_pair(b, k, l));
    lemma_score5_layout(without_pair(b, k, l));
    assert(category(without_pair(b, k, l)) == 8);
}

proof fn lemma_rank_count_remove(b: Seq<usize>, p: int, r: int)
    requires
        0 <= p < b.len(),
    ensures
        rank_count(b, r) == rank_count(b.remove(p), r) + if b[p] % 13 == r { 1nat } else { 0nat },
    decreases b.len(),
{
    if p == b.len() - 1 {
        assert(b.remove(p) =~= b.drop_last());
    } else {
        let d = b.drop_last();
        lemma_rank_count_remove(d, p, r);
        assert(b.remove(p).drop_last() =~= d.remove(p));
        assert(b.remove(p).last() == b.last());
    }
}

proof fn lemma_rank_count_perm(a: Seq<usize>, b: Seq<usize>, r: int)
    requires
        a.to_multiset() == b.to_multiset(),
    ensures
        rank_count(a, r) == rank_count(b, r),
    decreases a.len(),
{
    broadcast use vstd::seq_lib::group_to_multiset_ensures;

    if a.len() == 0 {
        assert(b.to_multiset().len() == 0);
    } else {
        let x = a.last();
        let d = a.drop_last();
        assert(a =~= d.push(x));
        assert(a.to_multiset().count(x) > 0);
        assert(b.contains(x));
        let p = choose|p: int| 0 <= p < b.len() && b[p] == x;
        let b2 = b.remove(p);
        assert(b2.to_multiset() =~= b.to_multiset().remove(x));
        assert(d.to_multiset() =~= a.to_multiset().remove(x));
        lemma_rank_count_perm(d, b2, r);
        lemma_rank_count_remove(b, p, r);
    }
}

proof fn lemma_flush_transfer(a: Seq<usize>, b: Seq<usize>)
    requires
        a.len() == 5,
        a.to_multiset() == b.to_multiset(),
        is_flush(a),
    ensures
        is_flush(b),
{
    broadcast use vstd::seq_lib::group_to_multiset_ensures;

    let s = a[0] / 13;
    assert forall|p: int| 0 <= p < 5 implies #[trigger] a[p] / 13 == s by {
        if p == 0 {
        } else if p == 1 {
        } else if p == 2 {
        } else if p == 3 {
        } else {
        }
    }
    a.to_multiset_ensures();
    b.to_multiset_ensures();
    assert(a.to_multiset().len() == b.to_multiset().len());
    assert(b.len() == 5);
    assert forall|k: int| 0 <= k < 5 implies #[trigger] b[k] / 13 == s by {
        assert(b.to_multiset().count(b[k]) > 0);
        assert(a.contains(b[k]));
        let p = choose|p: int| 0 <= p < a.len() && a[p] == b[k];
        assert(a[p] / 13 == s);
    }
    assert(b[0] / 13 == s && b[1] / 13 == s && b[2] / 13 == s && b[3] / 13 == s && b[4] / 13 == s);
}

proof fn lemma_rwc_congruent(a: Seq<usize>, b: Seq<usize>, k: nat, upto: int)
    requires
        forall|r: int| #[trigger] rank_count(a, r) == rank_count(b, r),
    ensures
        ranks_with_count(a, k, upto) == ranks_with_count(b, k, upto),
    decreases upto,
{
    if upto > 0 {
        lemma_rwc_congruent(a, b, k, upto - 1);
        assert(rank_count(a, upto - 1) == rank_count(b, upto - 1));
    }
}

proof fn lemma_count_class_congruent(a: Seq<usize>, b: Seq<usize>, c: nat, lo: int)
    requires
        forall|r: int| #[trigger] rank_count(a, r) == rank_count(b, r),
    ensures
        count_class(a, c, lo) == count_class(b, c, lo),
    decreases 12 - lo,
{
    if lo < 12 {
        lemma_count_class_congruent(a, b, c, lo + 1);
        assert(rank_count(a, lo + 1) == rank_count(b, lo + 1));
    }
}

proof fn lemma_classes_congruent(a: Seq<usize>, b: Seq<usize>, c: nat)
    requires
        forall|r: int| #[trigger] rank_count(a, r) == rank_count(b, r),
    ensures
        classes_above(a, c) == classes_above(b, c),
    decreases 5 - c,
{
    if c < 5 {
        lemma_classes_congruent(a, b, (c + 1) as nat);
        lemma_count_class_congruent(a, b, (c + 1) as nat, -1);
    }
}

/// The score of five cards depends only on which cards they are.
proof fn lemma_score5_perm(a: Seq<usize>, b: Seq<usize>)
    requires
        a.len() == 5,
        a.to_multiset() == b.to_multiset(),
    ensures
        score5(a) == score5(b),
{
    broadcast use vstd::seq_lib::group_to_multiset_ensures;

    a.to_multiset_ensures();
    b.to_multiset_ensures();
    assert(a.to_multiset().len() == b.to_multiset().len());
    assert(b.len() == 5);
    assert forall|r: int| #[trigger] rank_count(a, r) == rank_count(b, r) by {
        lemma_rank_count_perm(a, b, r);
    }
    if is_flush(a) {
        lemma_flush_transfer(a, b);
    }
    if is_flush(b) {
        lemma_flush_transfer(b, a);
    }
    lemma_rwc_congruent(a, b, 2, 13);
    lemma_rwc_congruent(a, b, 3, 13);
    lemma_rwc_congruent(a, b, 4, 13);
    lemma_classes_congruent(a, b, 0);
    assert(is_wheel(a) == is_wheel(b));
    assert forall|lo: int| #[trigger] run_at(a, lo) == run_at(b, lo) by {
        assert(rank_count(a, lo) == rank_count(b, lo));
        assert(rank_count(a, lo + 1) == rank_count(b, lo + 1));
        assert(rank_count(a, lo + 2) == rank_count(b, lo + 2));
        assert(rank_count(a, lo + 3) == rank_count(b, lo + 3));
        assert(rank_count(a, lo + 4) == rank_count(b, lo + 4));
    }
    if exists|lo: int| 0 <= lo <= 8 && #[trigger] run_at(a, lo) {
        let lo = choose|lo: int| 0 <= lo <= 8 && #[trigger] run_at(a, lo);
        assert(run_at(b, lo));
    }
    if exists|lo: int| 0 <= lo <= 8 && #[trigger] run_at(b, lo) {
        let lo = choose|lo: int| 0 <= lo <= 8 && #[trigger] run_at(b, lo);
        assert(run_at(a, lo));
    }
    assert(is_straight(a) == is_straight(b));
}

proof fn lemma_without_pair_multiset(h: Seq<usize>, i: int, j: int)
    requires
        h.len() == 7,
        0 <= i < j < 7,
    ensures
        without_pair(h, i, j).to_multiset() == h.to_multiset().remove(h[j]).remove(h[i]),
{
    broadcast use vstd::seq_lib::group_to_multiset_ensures;

    let r = h.remove(j);
    assert(without_pair(h, i, j) =~= r.remove(i));
    assert(r[i] == h[i]);
}

proof fn lemma_pair_match(a: Seq<usize>, b: Seq<usize>, i: int, j: int)
    requires
        a.len() == 7,
        a.to_multiset() == b.to_multiset(),
        0 <= i < j < 7,
    ensures
        exists|k: int, l: int|
            0 <= k < l < 7 && #[trigger] score5(without_pair(b, k, l)) == score5(
                without_pair(a, i, j),
            ),
{
    broadcast use vstd::seq_lib::group_to_multiset_ensures;

    a.to_multiset_ensures();
    b.to_multiset_ensures();
    assert(a.to_multiset().len() == b.to_multiset().len());
    assert(b.len() == 7);
    let x = a[i];
    let y = a[j];
    assert(a.to_multiset().count(x) > 0);
    assert(b.contains(x));
    let p = choose|p: int| 0 <= p < b.len() && b[p] == x;
    let br = b.remove(p);
    let ar = a.remove(i);
    assert(ar[j - 1] == y);
    assert(ar.contains(y));
    assert(ar.to_multiset() =~= br.to_multiset());
    assert(br.to_multiset().count(y) > 0);
    assert(br.contains(y));
    let q1 = choose|q: int| 0 <= q < br.len() && br[q] == y;
    let q = if q1 < p { q1 } else { q1 + 1 };
    assert(b[q] == y && q != p);
    let k = if p < q { p } else { q };
    let l = if p < q { q } else { p };
    lemma_without_pair_multiset(b, k, l);
    lemma_without_pair_multiset(a, i, j);
    let m = a.to_multiset();
    assert(m.remove(y).remove(x) =~= m.remove(x).remove(y));
    assert(without_pair(b, k, l).to_multiset() == without_pair(a, i, j).to_multiset());
    lemma_score5_perm(without_pair(a, i, j), without_pair(b, k, l));
}

/// The best score of seven cards does not depend on their order: any two
/// orderings of the same cards have the same best score.
pub proof fn lemma_best_score_permutation(a: Seq<usize>, b: Seq<usize>, sa: int, sb: int)
    requires
        a.len() == 7,
        a.to_multiset() == b.to_multiset(),
        is_best_of_seven(a, sa),
        is_best_of_seven(b, sb),
    ensures
        sa == sb,
{
    broadcast use vstd::seq_lib::group_to_multiset_ensures;

    a.to_multiset_ensures();
    b.to_multiset_ensures();
    assert(a.to_multiset().len() == b.to_multiset().len());
    assert(b.len() == 7);
    let (i, j) = choose|i: int, j: int|
        0 <= i < j < 7 && sa == #[trigger] score5(without_pair(a, i, j));
    lemma_pair_match(a, b, i, j);
    let (k, l) = choose|k: int, l: int|
        0 <= k < l < 7 && #[trigger] score5(without_pair(b, k, l)) == score5(without_pair(a, i, j));
    assert(sb <= score5(without_pair(b, k, l)));
    let (k2, l2) = choose|i: int, j: int|
        0 <= i < j < 7 && sb == #[trigger] score5(without_pair(b, i, j));
    lemma_pair_match(b, a, k2, l2);
    let (i2, j2) = choose|i: int, j: int|
        0 <= i < j < 7 && #[trigger] score5(without_pair(a, i, j)) == score5(without_pair(b, k2, l2));
    assert(sa <= score5(without_pair(a, i2, j2)));
}

/// Best score among pairs `(i, j')` with `j <= j' < 7`.
spec fn min_in_row(h: Seq<usize>, i: int, j: int) -> int
    decreases 7 - j,
{
    if j >= 6 {
        score5(without_pair(h, i, 6))
    } else {
        let rest = min_in_row(h, i, j + 1);
        let s = score5(without_pair(h, i, j));
        if s < rest {
            s
        } else {
            rest
        }
    }
}

/// Best score among pairs whose first position is at least `i`.
spec fn min_from_row(h: Seq<usize>, i: int) -> int
    decreases 6 - i,
{
    if i >= 5 {
        min_in_row(h, 5, 6)
    } else {
        let rest = min_from_row(h, i + 1);
        let s = min_in_row(h, i, i + 1);
        if s < rest {
            s
        } else {
            rest
        }
    }
}

proof fn lemma_min_in_row(h: Seq<usize>, i: int, j: int)
    requires
        0 <= i < j <= 6,
    ensures
        exists|b: int| j <= b < 7 && min_in_row(h, i, j) == #[trigger] score5(without_pair(h, i, b)),
        forall|b: int| j <= b < 7 ==> min_in_row(h, i, j) <= #[trigger] score5(without_pair(h, i, b)),
    decreases 7 - j,
{
    if j < 6 {
        lemma_min_in_row(h, i, j + 1);
    } else {
        assert(min_in_row(h, i, j) == score5(without_pair(h, i, 6)));
    }
}

proof fn lemma_min_from_row(h: Seq<usize>, i: int)
    requires
        0 <= i <= 5,
    ensures
        exists|a: int, b: int|
            i <= a < b < 7 && min_from_row(h, i) == #[trigger] score5(without_pair(h, a, b)),
        forall|a: int, b: int|
            i <= a < b < 7 ==> min_from_row(h, i) <= #[trigger] score5(without_pair(h, a, b)),
    decreases 6 - i,
{
    lemma_min_in_row(h, i, i + 1);
    if i < 5 {
        lemma_min_from_row(h, i + 1);
        assert forall|a: int, b: int| i <= a < b < 7 implies min_from_row(h, i)
            <= #[trigger] score5(without_pair(h, a, b)) by {
            if a == i {
            } else {
            }
        }
    }
}

/// Seven cards always have a best score.
pub proof fn lemma_best_exists(h: Seq<usize>)
    ensures
        is_best_of_seven(h, best_score(h)),
{
    lemma_min_from_row(h, 0);
    assert(is_best_of_seven(h, min_from_row(h, 0)));
}

proof fn lemma_indices_perm(a: Seq<Card>, b: Seq<Card>)
    requires
        a.to_multiset() == b.to_multiset(),
    ensures
        card_indices(a).to_multiset() == card_indices(b).to_multiset(),
    decreases a.len(),
{
    broadcast use vstd::seq_lib::group_to_multiset_ensures;

    a.to_multiset_ensures();
    b.to_multiset_ensures();
    if a.len() == 0 {
        assert(b.to_multiset().len() == 0);
        assert(card_indices(a) =~= card_indices(b));
    } else {
        let x = a.last();
        let d = a.drop_last();
        assert(a =~= d.push(x));
        assert(a.to_multiset().count(x) > 0);
        assert(b.contains(x));
        let p = choose|p: int| 0 <= p < b.len() && b[p] == x;
        let b2 = b.remove(p);
        assert(b2.to_multiset() =~= b.to_multiset().remove(x));
        assert(d.to_multiset() =~= a.to_multiset().remove(x));
        lemma_indices_perm(d, b2);
        let xi = x.index() as usize;
        assert(card_indices(a) =~= card_indices(d).push(xi));
        assert(card_indices(b2) =~= card_indices(b).remove(p));
        assert(card_indices(b)[p] == xi);
        assert(card_indices(b).to_multiset() =~= card_indices(b2).to_multiset().insert(xi));
    }
}

/// The best score of a seven-card hand does not depend on the order of its
/// cards: two orderings of the same cards score the same.
pub proof fn lemma_best_hand_permutation(a: Seq<Card>, b: Seq<Card>, sa: int, sb: int)
    requires
        a.len() == 7,
        a.to_multiset() == b.to_multiset(),
        is_best_of_seven(card_indices(a), sa),
        is_best_of_seven(card_indices(b), sb),
    ensures
        sa == sb,
{
    lemma_indices_perm(a, b);
    lemma_best_score_permutation(card_indices(a), card_indices(b), sa, sb);
}

} // verus!
