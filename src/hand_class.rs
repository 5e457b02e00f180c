//! The 169 canonical preflop hand classes (`AA`, `AKs`, `AKo`, ...).
use vstd::prelude::*;
use vstd::string::*;
use crate::cards::{Card, rank_char, rank_value, trimmed, trim_str, push_char, rank_to_char};

verus! {

/// Text of a class: `kind` 0 is the pair of rank `hi`, 1 suited, 2 offsuit
/// (`hi` above `lo`).
pub open spec fn class_text(hi: int, lo: int, kind: int) -> Seq<char> {
    if kind == 0 {
        seq![rank_char(hi), rank_char(hi)]
    } else {
        seq![rank_char(hi), rank_char(lo), if kind == 1 { 's' } else { 'o' }]
    }
}

/// Whether `(hi, lo, kind)` describes one of the 169 classes.
pub open spec fn valid_class(hi: int, lo: int, kind: int) -> bool {
    ||| kind == 0 && 0 <= hi < 13 && lo == hi
    ||| (kind == 1 || kind == 2) && 0 <= lo < hi < 13
}

/// The class of two cards: ranks high then low; equal ranks give a pair,
/// one suit gives suited, else offsuit.
pub open spec fn class_of(a: Card, b: Card) -> Seq<char> {
    let hi = if a.rank >= b.rank { a.rank as int } else { b.rank as int };
    let lo = if a.rank >= b.rank { b.rank as int } else { a.rank as int };
    if hi == lo {
        class_text(hi, lo, 0)
    } else if a.suit == b.suit {
        class_text(hi, lo, 1)
    } else {
        class_text(hi, lo, 2)
    }
}

/// The thirteen pairs, aces first.
pub open spec fn pair_classes() -> Seq<Seq<char>> {
    Seq::new(13, |i: int| class_text(12 - i, 12 - i, 0))
}

/// For high rank `hi`: `HLs`, `HLo` for each lower `L`, highest `L` first.
pub open spec fn class_block(hi: int) -> Seq<Seq<char>> {
    Seq::new(
        (2 * hi) as nat,
        |k: int| class_text(hi, hi - 1 - k / 2, if k % 2 == 0 { 1 } else { 2 }),
    )
}

/// The blocks of all high ranks above `h`, aces first.
pub open spec fn blocks_above(h: int) -> Seq<Seq<char>>
    decreases 12 - h,
{
    if h >= 12 {
        Seq::empty()
    } else {
        blocks_above(h + 1) + class_block(h + 1)
    }
}

/// All 169 classes in canonical order: pairs, then suited/offsuit pairs.
pub open spec fn all_classes() -> Seq<Seq<char>> {
    pair_classes() + blocks_above(0)
}

/// Representative cards of a class text that is already trimmed: a pair as
/// spade and heart, suited as two spades, offsuit as spade and heart.
pub open spec fn class_cards(t: Seq<char>) -> Option<(Card, Card)> {
    if t.len() == 2 {
        if rank_value(t[0]) is Some && rank_value(t[1]) is Some && rank_value(t[0])
            == rank_value(t[1]) {
            let r = rank_value(t[0])->Some_0;
            Some((Card { rank: r, suit: 0 }, Card { rank: r, suit: 1 }))
        } else {
            None
        }
    } else if t.len() == 3 {
        if rank_value(t[0]) is Some && rank_value(t[1]) is Some && rank_value(t[0])->Some_0
            > rank_value(t[1])->Some_0 {
            let r1 = rank_value(t[0])->Some_0;
            let r2 = rank_value(t[1])->Some_0;
            if t[2] == 's' || t[2] == 'S' {
                Some((Card { rank: r1, suit: 0 }, Card { rank: r2, suit: 0 }))
            } else if t[2] == 'o' || t[2] == 'O' {
                Some((Card { rank: r1, suit: 0 }, Card { rank: r2, suit: 1 }))
            } else {
                None
            }
        } else {
            None
        }
    } else {
        None
    }
}

fn class_string(hi: u8, lo: u8, kind: u8) -> (r: String)
    requires
        hi < 13,
        lo < 13,
        kind < 3,
    ensures
        r@ == class_text(hi as int, lo as int, kind as int),
{
    let mut s = String::new();
    push_char(&mut s, rank_to_char(hi));
    if kind == 0 {
        push_char(&mut s, rank_to_char(hi));
    } else {
        push_char(&mut s, rank_to_char(lo));
        push_char(&mut s, if kind == 1 { 's' } else { 'o' });
    }
    assert(s@ =~= class_text(hi as int, lo as int, kind as int));
    s
}

/// The class of a two-card hero; `None` for another number of cards or a
/// rank out of range.
pub fn to_hand_class(hero: &[Card]) -> (r: Option<String>)
    ensures
        hero@.len() == 2 && hero@[0].rank < 13 && hero@[1].rank < 13 ==> r is Some
            && r->Some_0@ == class_of(hero@[0], hero@[1]),
        !(hero@.len() == 2 && hero@[0].rank < 13 && hero@[1].rank < 13) ==> r is None,
{
    if hero.len() != 2 {
        return None;
    }
    let c1 = hero[0];
    let c2 = hero[1];
    if c1.rank >= 13 || c2.rank >= 13 {
        return None;
    }
    let (r1, r2) = if c1.rank >= c2.rank {
        (c1.rank, c2.rank)
    } else {
        (c2.rank, c1.rank)
    };
    if r1 == r2 {
        return Some(class_string(r1, r2, 0));
    }
    let suited = c1.suit == c2.suit;
    Some(class_string(r1, r2, if suited { 1 } else { 2 }))
}

/// The 169 classes in canonical order.
pub fn all_hand_classes() -> (r: Vec<String>)
    ensures
        r@.map_values(|s: String| s@) == all_classes(),
{
    let mut out: Vec<String> = Vec::new();
    let mut i: u8 = 0;
    while i < 13
        invariant
            0 <= i <= 13,
            out@.map_values(|s: String| s@) == pair_classes().take(i as int),
        decreases 13 - i,
    {
        let s = class_string(12 - i, 12 - i, 0);
        let ghost prev = out@;
        let ghost sv = s@;
        out.push(s);
        assert(out@.map_values(|s: String| s@) =~= prev.map_values(|s: String| s@).push(sv));
        assert(out@.map_values(|s: String| s@) =~= pair_classes().take(i as int + 1));
        i += 1;
    }
    assert(pair_classes().take(13) =~= pair_classes());
    assert(blocks_above(12) =~= Seq::<Seq<char>>::empty());
    let mut hi: u8 = 12;
    while hi >= 1
        invariant
            0 <= hi <= 12,
            out@.map_values(|s: String| s@) == pair_classes() + blocks_above(hi as int),
        decreases hi,
    {
        let ghost start = out@.map_values(|s: String| s@);
        let mut m: u8 = 0;
        while m < hi
            invariant
                1 <= hi <= 12,
                0 <= m <= hi,
                start == pair_classes() + blocks_above(hi as int),
                out@.map_values(|s: String| s@) == start + class_block(hi as int).take(
                    2 * m as int,
                ),
            decreases hi - m,
        {
            let lo = hi - 1 - m;
            let s1 = class_string(hi, lo, 1);
            let s2 = class_string(hi, lo, 2);
            let ghost prev = out@;
            let ghost v1 = s1@;
            let ghost v2 = s2@;
            out.push(s1);
            out.push(s2);
            proof {
                assert(out@.map_values(|s: String| s@) =~= prev.map_values(|s: String| s@).push(
                    v1,
                ).push(v2));
                let b = class_block(hi as int);
                assert(b[2 * m as int] == class_text(hi as int, lo as int, 1));
                assert(b[2 * m as int + 1] == class_text(hi as int, lo as int, 2));
                assert(out@.map_values(|s: String| s@) =~= start + b.take(2 * m as int + 2));
            }
            m += 1;
        }
        proof {
            assert(class_block(hi as int).take(2 * hi as int) =~= class_block(hi as int));
            assert(blocks_above(hi as int - 1) == blocks_above(hi as int) + class_block(
                hi as int,
            ));
            assert(out@.map_values(|s: String| s@) =~= pair_classes() + blocks_above(
                hi as int - 1,
            ));
        }
        hi -= 1;
    }
    out
}

/// Representative cards of a class text that is already trimmed; `None` for
/// anything that is not a class (case of the letters aside).
pub fn class_token_to_cards(t: &str) -> (r: Option<[Card; 2]>)
    ensures
        match class_cards(t@) {
            Some((a, b)) => r is Some && r->Some_0@ == seq![a, b],
            None => r is None,
        },
{
    let n = t.unicode_len();
    if n != 2 && n != 3 {
        return None;
    }
    let r1 = match crate::cards::rank_from_char(t.get_char(0)) {
        Some(r) => r,
        None => return None,
    };
    let r2 = match crate::cards::rank_from_char(t.get_char(1)) {
        Some(r) => r,
        None => return None,
    };
    if n == 2 {
        if r1 != r2 {
            return None;
        }
        let res = [Card { rank: r1, suit: 0 }, Card { rank: r1, suit: 1 }];
        assert(res@ =~= seq![Card { rank: r1, suit: 0 }, Card { rank: r1, suit: 1 }]);
        return Some(res);
    }
    if r1 <= r2 {
        return None;
    }
    let last = t.get_char(2);
    if last == 's' || last == 'S' {
        let res = [Card { rank: r1, suit: 0 }, Card { rank: r2, suit: 0 }];
        assert(res@ =~= seq![Card { rank: r1, suit: 0 }, Card { rank: r2, suit: 0 }]);
        Some(res)
    } else if last == 'o' || last == 'O' {
        let res = [Card { rank: r1, suit: 0 }, Card { rank: r2, suit: 1 }];
        assert(res@ =~= seq![Card { rank: r1, suit: 0 }, Card { rank: r2, suit: 1 }]);
        Some(res)
    } else {
        None
    }
}

/// Representative cards of a class; surrounding white space is ignored.
pub fn hand_class_to_cards(hand_class: &str) -> (r: Option<[Card; 2]>)
    ensures
        match class_cards(trimmed(hand_class@)) {
            Some((a, b)) => r is Some && r->Some_0@ == seq![a, b],
            None => r is None,
        },
{
    class_token_to_cards(trim_str(hand_class))
}

proof fn lemma_rank_char_injective(a: int, b: int)
    requires
        0 <= a < 13,
        0 <= b < 13,
        rank_char(a) == rank_char(b),
    ensures
        a == b,
{
}

proof fn lemma_rank_char_value(r: int)
    requires
        0 <= r < 13,
    ensures
        rank_value(rank_char(r)) == Some(r as u8),
{
}

/// Representative holding of a class given as `(hi, lo, kind)`.
pub open spec fn representative(hi: int, lo: int, kind: int) -> (Card, Card) {
    if kind == 0 {
        (Card { rank: hi as u8, suit: 0 }, Card { rank: hi as u8, suit: 1 })
    } else if kind == 1 {
        (Card { rank: hi as u8, suit: 0 }, Card { rank: lo as u8, suit: 0 })
    } else {
        (Card { rank: hi as u8, suit: 0 }, Card { rank: lo as u8, suit: 1 })
    }
}

proof fn lemma_text_round_trip(hi: int, lo: int, kind: int)
    requires
        valid_class(hi, lo, kind),
    ensures
        class_cards(class_text(hi, lo, kind)) == Some(representative(hi, lo, kind)),
        class_of(representative(hi, lo, kind).0, representative(hi, lo, kind).1) == class_text(
            hi,
            lo,
            kind,
        ),
        representative(hi, lo, kind).0.wf(),
        representative(hi, lo, kind).1.wf(),
        representative(hi, lo, kind).0.index() != representative(hi, lo, kind).1.index(),
{
    lemma_rank_char_value(hi);
    lemma_rank_char_value(lo);
    let t = class_text(hi, lo, kind);
    assert(t[0] == rank_char(hi));
    if kind != 0 {
        assert(t[1] == rank_char(lo));
        assert(t[2] == if kind == 1 { 's' } else { 'o' });
    } else {
        assert(t[1] == rank_char(hi));
    }
}

proof fn lemma_blocks_len(h: int)
    requires
        0 <= h <= 12,
    ensures
        blocks_above(h).len() == 156 - h * (h + 1),
    decreases 12 - h,
{
    if h < 12 {
        lemma_blocks_len(h + 1);
        assert(156 - (h + 1) * (h + 2) + 2 * (h + 1) == 156 - h * (h + 1)) by (nonlinear_arith);
    }
}

proof fn lemma_blocks_shape(h: int, k: int)
    requires
        0 <= h <= 12,
        0 <= k < blocks_above(h).len(),
    ensures
        exists|hi: int, lo: int, kind: int|
            valid_class(hi, lo, kind) && kind != 0 && hi > h && blocks_above(h)[k] == #[trigger] class_text(
                hi,
                lo,
                kind,
            ),
    decreases 12 - h,
{
    if h < 12 {
        let rest = blocks_above(h + 1);
        if k < rest.len() {
            lemma_blocks_shape(h + 1, k);
        } else {
            let k2 = k - rest.len();
            let hi = h + 1;
            let lo = hi - 1 - k2 / 2;
            let kind = if k2 % 2 == 0 { 1int } else { 2int };
            assert(blocks_above(h)[k] == class_block(hi)[k2]);
            assert(valid_class(hi, lo, kind));
            assert(blocks_above(h)[k] == class_text(hi, lo, kind));
        }
    }
}

proof fn lemma_blocks_distinct(h: int)
    requires
        0 <= h <= 12,
    ensures
        forall|i: int, j: int|
            0 <= i < j < blocks_above(h).len() ==> blocks_above(h)[i] != blocks_above(h)[j],
    decreases 12 - h,
{
    if h < 12 {
        lemma_blocks_distinct(h + 1);
        let ba = blocks_above(h);
        let rest = blocks_above(h + 1);
        let blk = class_block(h + 1);
        assert(ba == rest + blk);
        assert forall|i: int, j: int| 0 <= i < j < ba.len() implies ba[i] != ba[j] by {
            if j < rest.len() {
                assert(ba[i] == rest[i]);
                assert(ba[j] == rest[j]);
            } else if i < rest.len() {
                lemma_blocks_shape(h + 1, i);
                let (hi, lo, kind) = choose|hi: int, lo: int, kind: int|
                    valid_class(hi, lo, kind) && kind != 0 && hi > h + 1 && rest[i] == #[trigger] class_text(
                        hi,
                        lo,
                        kind,
                    );
                let k2 = j - rest.len();
                assert(ba[j] == blk[k2]);
                if ba[i] == ba[j] {
                    assert(ba[i][0] == rank_char(hi));
                    assert(ba[j][0] == rank_char(h + 1));
                    lemma_rank_char_injective(hi, h + 1);
                }
            } else {
                let k1 = i - rest.len();
                let k2 = j - rest.len();
                assert(ba[i] == blk[k1]);
                assert(ba[j] == blk[k2]);
                if ba[i] == ba[j] {
                    assert(ba[i][1] == rank_char(h - k1 / 2));
                    assert(ba[j][1] == rank_char(h - k2 / 2));
                    lemma_rank_char_injective(h - k1 / 2, h - k2 / 2);
                    assert(ba[i][2] == ba[j][2]);
                }
            }
        }
    }
}

/// The canonical list has 169 entries and no entry twice.
pub proof fn lemma_all_classes_distinct()
    ensures
        all_classes().len() == 169,
        forall|i: int, j: int|
            0 <= i < j < all_classes().len() ==> all_classes()[i] != all_classes()[j],
{
    lemma_blocks_len(0);
    lemma_blocks_distinct(0);
    let p = pair_classes();
    let b = blocks_above(0);
    let a = all_classes();
    assert forall|i: int, j: int| 0 <= i < j < a.len() implies a[i] != a[j] by {
        if j < 13 {
            assert(a[i] == p[i]);
            assert(a[j] == p[j]);
            if a[i] == a[j] {
                assert(a[i][0] == rank_char(12 - i));
                assert(a[j][0] == rank_char(12 - j));
                lemma_rank_char_injective(12 - i, 12 - j);
            }
        } else if i < 13 {
            lemma_blocks_shape(0, j - 13);
            let (hi, lo, kind) = choose|hi: int, lo: int, kind: int|
                valid_class(hi, lo, kind) && kind != 0 && hi > 0 && b[j - 13] == #[trigger] class_text(
                    hi,
                    lo,
                    kind,
                );
            assert(a[j] == b[j - 13]);
            assert(a[j].len() == 3);
            assert(a[i] == p[i]);
            assert(a[i].len() == 2);
        } else {
            assert(a[i] == b[i - 13]);
            assert(a[j] == b[j - 13]);
        }
    }
}

/// Every class of the canonical list turns into a holding whose class is
/// that class again.
pub proof fn lemma_class_cards_round_trip(k: int)
    requires
        0 <= k < all_classes().len(),
    ensures
        class_cards(all_classes()[k]) is Some,
        class_of(class_cards(all_classes()[k])->Some_0.0, class_cards(all_classes()[k])->Some_0.1)
            == all_classes()[k],
        class_cards(all_classes()[k])->Some_0.0.wf(),
        class_cards(all_classes()[k])->Some_0.1.wf(),
        class_cards(all_classes()[k])->Some_0.0.index() != class_cards(
            all_classes()[k],
        )->Some_0.1.index(),
{
    let a = all_classes();
    if k < 13 {
        assert(a[k] == class_text(12 - k, 12 - k, 0));
        lemma_text_round_trip(12 - k, 12 - k, 0);
    } else {
        lemma_blocks_shape(0, k - 13);
        let (hi, lo, kind) = choose|hi: int, lo: int, kind: int|
            valid_class(hi, lo, kind) && kind != 0 && hi > 0 && blocks_above(0)[k - 13] == #[trigger] class_text(
                hi,
                lo,
                kind,
            );
        assert(a[k] == blocks_above(0)[k - 13]);
        lemma_text_round_trip(hi, lo, kind);
    }
}

/// The class of any two valid cards turns into a holding of that same class.
pub proof fn lemma_holding_class_round_trip(a: Card, b: Card)
    requires
        a.wf(),
        b.wf(),
    ensures
        class_cards(class_of(a, b)) is Some,
        class_of(class_cards(class_of(a, b))->Some_0.0, class_cards(class_of(a, b))->Some_0.1)
            == class_of(a, b),
{
    let hi = if a.rank >= b.rank { a.rank as int } else { b.rank as int };
    let lo = if a.rank >= b.rank { b.rank as int } else { a.rank as int };
    let kind = if hi == lo { 0int } else if a.suit == b.suit { 1int } else { 2int };
    assert(class_of(a, b) == class_text(hi, lo, kind));
    lemma_text_round_trip(hi, lo, kind);
}

} // verus!
