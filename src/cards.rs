//! Cards: rank/suit encoding, parsing, validation and the deck.
use vstd::prelude::*;
use vstd::string::*;
use crate::rng::{WorkerRng, lcg_step, lcg_output};

verus! {

/// A playing card: `rank` 0..=12 stands for 2,3,...,K,A and `suit` 0..=3
/// for s,h,d,c.
#[derive(Clone, Copy, Debug, PartialEq, Eq, Structural)]
pub struct Card {
    pub rank: u8,
    pub suit: u8,
}

impl Card {
    pub open spec fn wf(&self) -> bool {
        self.rank < 13 && self.suit < 4
    }

    /// The card's index in `[0, 52)`.
    pub open spec fn index(&self) -> int {
        self.suit as int * 13 + self.rank as int
    }

    pub fn to_idx(&self) -> (r: usize)
        ensures
            r == self.index(),
    {
        (self.suit as usize) * 13 + (self.rank as usize)
    }

    pub fn from_idx(idx: usize) -> (c: Card)
        requires
            idx < 52,
        ensures
            c.wf(),
            c.index() == idx,
            c.rank == idx % 13,
            c.suit == idx / 13,
    {
        Card { suit: (idx / 13) as u8, rank: (idx % 13) as u8 }
    }
}

/// An input error: a short identifier, a human-readable detail and the
/// offending card, if any.
#[derive(Debug)]
pub struct ValidationError {
    pub error: String,
    pub details: Option<String>,
    pub card: Option<String>,
}

/// The character of a rank in canonical (upper) case.
pub open spec fn rank_char(r: int) -> char {
    if r == 0 { '2' } else if r == 1 { '3' } else if r == 2 { '4' } else if r == 3 { '5' }
    else if r == 4 { '6' } else if r == 5 { '7' } else if r == 6 { '8' } else if r == 7 { '9' }
    else if r == 8 { 'T' } else if r == 9 { 'J' } else if r == 10 { 'Q' } else if r == 11 { 'K' }
    else { 'A' }
}

/// The character of a suit in canonical (lower) case.
pub open spec fn suit_char(s: int) -> char {
    if s == 0 { 's' } else if s == 1 { 'h' } else if s == 2 { 'd' } else { 'c' }
}

/// The rank a character names, in either case.
pub open spec fn rank_value(c: char) -> Option<u8> {
    if c == '2' { Some(0u8) } else if c == '3' { Some(1u8) } else if c == '4' { Some(2u8) }
    else if c == '5' { Some(3u8) } else if c == '6' { Some(4u8) } else if c == '7' { Some(5u8) }
    else if c == '8' { Some(6u8) } else if c == '9' { Some(7u8) }
    else if c == 'T' || c == 't' { Some(8u8) } else if c == 'J' || c == 'j' { Some(9u8) }
    else if c == 'Q' || c == 'q' { Some(10u8) } else if c == 'K' || c == 'k' { Some(11u8) }
    else if c == 'A' || c == 'a' { Some(12u8) } else { None }
}

/// The suit a character names, in either case.
pub open spec fn suit_value(c: char) -> Option<u8> {
    if c == 's' || c == 'S' { Some(0u8) } else if c == 'h' || c == 'H' { Some(1u8) }
    else if c == 'd' || c == 'D' { Some(2u8) } else if c == 'c' || c == 'C' { Some(3u8) }
    else { None }
}

/// Outcome of reading a token that has already been trimmed and had `10`
/// turned into `T`: the card, or the identifier of the error.
pub open spec fn token_outcome(t: Seq<char>) -> Result<Card, Seq<char>> {
    if t.len() != 2 {
        Err("invalid_card_length"@)
    } else if rank_value(t[0]) is None {
        Err("invalid_rank"@)
    } else if suit_value(t[1]) is None {
        Err("invalid_suit"@)
    } else {
        Ok(Card { rank: rank_value(t[0])->Some_0, suit: suit_value(t[1])->Some_0 })
    }
}

/// Every `10` of `s`, read left to right, written as `T`.
pub open spec fn ten_as_t(s: Seq<char>) -> Seq<char>
    decreases s.len(),
{
    if s.len() < 2 {
        s
    } else if s[0] == '1' && s[1] == '0' {
        seq!['T'] + ten_as_t(s.skip(2))
    } else {
        seq![s[0]] + ten_as_t(s.skip(1))
    }
}

/// What `str::trim` leaves of a string.
pub uninterp spec fn trimmed(s: Seq<char>) -> Seq<char>;

/// Relies on `str::trim`: leading and trailing white space removed.
#[verifier::external_body]
pub(crate) fn trim_str(s: &str) -> (r: &str)
    ensures
        r@ == trimmed(s@),
{
    s.trim()
}

/// Relies on `char::to_string`: the one-character string.
#[verifier::external_body]
fn char_to_str(c: char) -> (r: String)
    ensures
        r@ == seq![c],
{
    c.to_string()
}

/// Appends one character.
pub(crate) fn push_char(s: &mut String, c: char)
    ensures
        final(s)@ == old(s)@.push(c),
{
    let t = char_to_str(c);
    s.append(t.as_str());
    assert(final(s)@ =~= old(s)@.push(c));
}

/// Writes every `10` of `s`, read left to right, as `T`.
fn replace_ten(s: &str) -> (r: String)
    ensures
        r@ == ten_as_t(s@),
{
    let n = s.unicode_len();
    let mut out = String::new();
    let mut i: usize = 0;
    assert(s@.skip(0) =~= s@);
    assert(out@ + ten_as_t(s@) =~= ten_as_t(s@));
    while i < n
        invariant
            n == s@.len(),
            0 <= i <= n,
            out@ + ten_as_t(s@.skip(i as int)) == ten_as_t(s@),
        decreases n - i,
    {
        let ghost rest = s@.skip(i as int);
        let c = s.get_char(i);
        if i + 1 < n && c == '1' && s.get_char(i + 1) == '0' {
            proof {
                assert(rest.skip(2) =~= s@.skip(i as int + 2));
                assert(rest[0] == '1' && rest[1] == '0');
                assert(out@.push('T') + ten_as_t(s@.skip(i as int + 2)) =~= out@ + (seq!['T']
                    + ten_as_t(rest.skip(2))));
            }
            push_char(&mut out, 'T');
            i += 2;
        } else {
            proof {
                assert(rest.skip(1) =~= s@.skip(i as int + 1));
                assert(rest[0] == c);
                if rest.len() >= 2 {
                    assert(!(rest[0] == '1' && rest[1] == '0'));
                    assert(out@.push(c) + ten_as_t(s@.skip(i as int + 1)) =~= out@ + (seq![c]
                        + ten_as_t(rest.skip(1))));
                } else {
                    assert(rest =~= seq![c]);
                    assert(s@.skip(i as int + 1) =~= Seq::<char>::empty());
                    assert(out@.push(c) + ten_as_t(s@.skip(i as int + 1)) =~= out@ + rest);
                }
            }
            push_char(&mut out, c);
            i += 1;
        }
    }
    proof {
        assert(s@.skip(n as int) =~= Seq::<char>::empty());
        assert(out@ + ten_as_t(s@.skip(n as int)) =~= out@);
    }
    out
}

pub(crate) fn rank_from_char(c: char) -> (r: Option<u8>)
    ensures
        r == rank_value(c),
{
    match c {
        '2' => Some(0),
        '3' => Some(1),
        '4' => Some(2),
        '5' => Some(3),
        '6' => Some(4),
        '7' => Some(5),
        '8' => Some(6),
        '9' => Some(7),
        'T' | 't' => Some(8),
        'J' | 'j' => Some(9),
        'Q' | 'q' => Some(10),
        'K' | 'k' => Some(11),
        'A' | 'a' => Some(12),
        _ => None,
    }
}

fn suit_from_char(c: char) -> (r: Option<u8>)
    ensures
        r == suit_value(c),
{
    match c {
        's' | 'S' => Some(0),
        'h' | 'H' => Some(1),
        'd' | 'D' => Some(2),
        'c' | 'C' => Some(3),
        _ => None,
    }
}

pub(crate) fn rank_to_char(r: u8) -> (c: char)
    requires
        r < 13,
    ensures
        c == rank_char(r as int),
{
    match r {
        0 => '2',
        1 => '3',
        2 => '4',
        3 => '5',
        4 => '6',
        5 => '7',
        6 => '8',
        7 => '9',
        8 => 'T',
        9 => 'J',
        10 => 'Q',
        11 => 'K',
        _ => 'A',
    }
}

pub(crate) fn suit_to_char(s: u8) -> (c: char)
    requires
        s < 4,
    ensures
        c == suit_char(s as int),
{
    match s {
        0 => 's',
        1 => 'h',
        2 => 'd',
        _ => 'c',
    }
}

/// An error with an identifier, a detail and optionally the card.
fn make_error(error: &str, details: String, card: Option<String>) -> (e: ValidationError)
    ensures
        e.error@ == error@,
        e.details == Some(details),
        e.card == card,
{
    ValidationError { error: String::from_str(error), details: Some(details), card }
}

/// Reads a card from a token that is already trimmed and has `10` written as
/// `T`; an error carries `input`, the text the caller was given.
pub fn parse_card_token(t: &str, input: &str) -> (r: Result<Card, ValidationError>)
    ensures
        match token_outcome(t@) {
            Ok(c) => r == Ok::<Card, ValidationError>(c),
            Err(kind) => r is Err && r->Err_0.error@ == kind && r->Err_0.card is Some
                && r->Err_0.card->Some_0@ == input@ && r->Err_0.details is Some,
        },
        r is Ok ==> r->Ok_0.wf(),
{
    let n = t.unicode_len();
    if n != 2 {
        let mut d = String::from_str("Card must be 2 chars (e.g. As, Td), got: ");
        d.append(input);
        return Err(make_error("invalid_card_length", d, Some(String::from_str(input))));
    }
    let rc = t.get_char(0);
    let sc = t.get_char(1);
    let rank = match rank_from_char(rc) {
        Some(r) => r,
        None => {
            let mut d = String::from_str("Rank must be one of 23456789TJQKA, got: ");
            push_char(&mut d, rc);
            return Err(make_error("invalid_rank", d, Some(String::from_str(input))));
        },
    };
    let suit = match suit_from_char(sc) {
        Some(s) => s,
        None => {
            let mut d = String::from_str("Suit must be s,h,d,c, got: ");
            push_char(&mut d, sc);
            return Err(make_error("invalid_suit", d, Some(String::from_str(input))));
        },
    };
    Ok(Card { rank, suit })
}

/// Reads one card: case-insensitive, surrounding white space ignored, and
/// `10` accepted for `T`.
pub fn parse_card(s: &str) -> (r: Result<Card, ValidationError>)
    ensures
        match token_outcome(ten_as_t(trimmed(s@))) {
            Ok(c) => r == Ok::<Card, ValidationError>(c),
            Err(kind) => r is Err && r->Err_0.error@ == kind && r->Err_0.card is Some
                && r->Err_0.card->Some_0@ == s@ && r->Err_0.details is Some,
        },
        r is Ok ==> r->Ok_0.wf(),
{
    let t = replace_ten(trim_str(s));
    parse_card_token(t.as_str(), s)
}

/// The white-space separated tokens of a string.
pub uninterp spec fn whitespace_tokens(s: Seq<char>) -> Seq<Seq<char>>;

/// Relies on `str::split_whitespace`: the tokens, in order, none of them empty.
#[verifier::external_body]
fn split_tokens(s: &str) -> (r: Vec<String>)
    ensures
        r@.map_values(|t: String| t@) == whitespace_tokens(s@),
{
    s.split_whitespace().map(|t| t.to_string()).collect()
}

/// Outcome of reading each token as a card: the cards, or the error
/// identifier and the token of the first one that fails.
pub open spec fn tokens_outcome(ts: Seq<Seq<char>>) -> Result<Seq<Card>, (Seq<char>, Seq<char>)>
    decreases ts.len(),
{
    if ts.len() == 0 {
        Ok(Seq::empty())
    } else {
        match tokens_outcome(ts.drop_last()) {
            Err(e) => Err(e),
            Ok(cs) => match token_outcome(ten_as_t(trimmed(ts.last()))) {
                Err(e) => Err((e, ts.last())),
                Ok(c) => Ok(cs.push(c)),
            },
        }
    }
}

/// Reads each token as a card; the first bad token's error is returned.
pub fn parse_card_list(toks: &Vec<String>) -> (r: Result<Vec<Card>, ValidationError>)
    ensures
        match tokens_outcome(toks@.map_values(|t: String| t@)) {
            Ok(cs) => r is Ok && r->Ok_0@ == cs,
            Err((kind, tok)) => r is Err && r->Err_0.error@ == kind && r->Err_0.card is Some
                && r->Err_0.card->Some_0@ == tok && r->Err_0.details is Some,
        },
        r is Ok ==> forall|i: int| 0 <= i < r->Ok_0@.len() ==> (#[trigger] r->Ok_0@[i]).wf(),
{
    let ghost ts = toks@.map_values(|t: String| t@);
    let mut out: Vec<Card> = Vec::new();
    let mut i: usize = 0;
    while i < toks.len()
        invariant
            0 <= i <= toks@.len(),
            toks@.map_values(|t: String| t@) == ts,
            tokens_outcome(ts.take(i as int)) == Ok::<Seq<Card>, (Seq<char>, Seq<char>)>(out@),
            forall|k: int| 0 <= k < out@.len() ==> (#[trigger] out@[k]).wf(),
        decreases toks@.len() - i,
    {
        assert(ts.take(i as int + 1).drop_last() =~= ts.take(i as int));
        assert(ts[i as int] == toks@[i as int]@);
        assert(ts.take(i as int + 1).last() == ts[i as int]);
        match parse_card(toks[i].as_str()) {
            Ok(c) => {
                out.push(c);
            },
            Err(e) => {
                proof {
                    let tk = ts.take(i as int + 1);
                    assert(token_outcome(ten_as_t(trimmed(tk.last()))) is Err);
                    assert(tokens_outcome(tk) == Err::<Seq<Card>, (Seq<char>, Seq<char>)>(
                        (e.error@, ts[i as int]),
                    ));
                    lemma_tokens_err_extends(ts, i as int + 1);
                }
                return Err(e);
            },
        }
        i += 1;
    }
    assert(ts.take(i as int) =~= ts);
    Ok(out)
}

/// Reads every white-space separated card of `s`; the first bad token's
/// error is returned.
pub fn parse_cards(s: &str) -> (r: Result<Vec<Card>, ValidationError>)
    ensures
        match tokens_outcome(whitespace_tokens(s@)) {
            Ok(cs) => r is Ok && r->Ok_0@ == cs,
            Err((kind, tok)) => r is Err && r->Err_0.error@ == kind && r->Err_0.card is Some
                && r->Err_0.card->Some_0@ == tok && r->Err_0.details is Some,
        },
{
    let toks = split_tokens(s);
    parse_card_list(&toks)
}

proof fn lemma_tokens_err_extends(ts: Seq<Seq<char>>, k: int)
    requires
        0 <= k <= ts.len(),
        tokens_outcome(ts.take(k)) is Err,
    ensures
        tokens_outcome(ts) == tokens_outcome(ts.take(k)),
    decreases ts.len() - k,
{
    if k < ts.len() {
        assert(ts.take(k + 1).drop_last() =~= ts.take(k));
        lemma_tokens_err_extends(ts, k + 1);
    } else {
        assert(ts.take(k) =~= ts);
    }
}

/// The two-character string of a card.
pub open spec fn card_text(c: Card) -> Seq<char> {
    seq![rank_char(c.rank as int), suit_char(c.suit as int)]
}

/// Formats a card as rank then suit, e.g. `As`, `Td`.
pub fn card_to_string(c: &Card) -> (r: String)
    requires
        c.wf(),
    ensures
        r@ == card_text(*c),
{
    let mut s = String::new();
    push_char(&mut s, rank_to_char(c.rank));
    push_char(&mut s, suit_to_char(c.suit));
    assert(s@ =~= card_text(*c));
    s
}

/// Whether a board length is one of 0, 3, 4, 5.
pub open spec fn board_len_ok(n: int) -> bool {
    n == 0 || n == 3 || n == 4 || n == 5
}

/// Whether the card at position `k` repeats an earlier one.
pub open spec fn repeats_earlier(s: Seq<Card>, k: int) -> bool {
    exists|j: int| 0 <= j < k && #[trigger] s[j].index() == s[k].index()
}

/// Whether all cards of `s` are distinct.
pub open spec fn all_distinct(s: Seq<Card>) -> bool {
    forall|i: int, j: int| 0 <= i < j < s.len() ==> s[i].index() != s[j].index()
}

/// Checks a hero/board pair: two hero cards, a board of 0, 3, 4 or 5 cards,
/// and no card twice; a duplicate names the first card that repeats.
pub fn validate_input(hero: &[Card], board: &[Card]) -> (r: Result<(), ValidationError>)
    requires
        forall|i: int| 0 <= i < hero@.len() ==> (#[trigger] hero@[i]).wf(),
        forall|i: int| 0 <= i < board@.len() ==> (#[trigger] board@[i]).wf(),
    ensures
        r is Err ==> r->Err_0.details is Some,
        hero@.len() != 2 ==> r is Err && r->Err_0.error@ == "invalid_hero"@ && r->Err_0.card is None,
        hero@.len() == 2 && !board_len_ok(board@.len() as int) ==> r is Err
            && r->Err_0.error@ == "invalid_board_length"@ && r->Err_0.card is None,
        hero@.len() == 2 && board_len_ok(board@.len() as int) ==> {
            let all = hero@ + board@;
            &&& (r is Ok <==> all_distinct(all))
            &&& r is Err ==> r->Err_0.error@ == "duplicate_cards"@ && exists|k: int|
                0 <= k < all.len() && repeats_earlier(all, k) && (forall|m: int|
                0 <= m < k ==> !repeats_earlier(all, m)) && r->Err_0.card is Some
                && r->Err_0.card->Some_0@ == card_text(all[k])
        },
{
    if hero.len() != 2 {
        return Err(
            ValidationError {
                error: String::from_str("invalid_hero"),
                details: Some(String::from_str("hero must be exactly 2 cards")),
                card: None,
            },
        );
    }
    let bl = board.len();
    if !(bl == 0 || bl == 3 || bl == 4 || bl == 5) {
        return Err(
            ValidationError {
                error: String::from_str("invalid_board_length"),
                details: Some(String::from_str("board must have 0,3,4,5 cards")),
                card: None,
            },
        );
    }
    let ghost all = hero@ + board@;
    let n = 2 + bl;
    let mut k: usize = 0;
    while k < n
        invariant
            n == all.len(),
            hero@.len() == 2,
            bl == board@.len(),
            all == hero@ + board@,
            board_len_ok(bl as int),
            0 <= k <= n,
            forall|m: int| 0 <= m < k ==> !repeats_earlier(all, m),
            forall|i: int| 0 <= i < all.len() ==> (#[trigger] all[i]).wf(),
        decreases n - k,
    {
        let ck = if k < 2 { hero[k] } else { board[k - 2] };
        assert(ck == all[k as int]);
        let mut j: usize = 0;
        while j < k
            invariant
                0 <= j <= k < n,
                n == all.len(),
                hero@.len() == 2,
                bl == board@.len(),
                all == hero@ + board@,
                ck == all[k as int],
                board_len_ok(bl as int),
                forall|m: int| 0 <= m < k ==> !repeats_earlier(all, m),
                forall|i: int| 0 <= i < all.len() ==> (#[trigger] all[i]).wf(),
                forall|m: int| 0 <= m < j ==> all[m].index() != all[k as int].index(),
            decreases k - j,
        {
            let cj = if j < 2 { hero[j] } else { board[j - 2] };
            assert(cj == all[j as int]);
            if cj.to_idx() == ck.to_idx() {
                assert(repeats_earlier(all, k as int));
                let txt = card_to_string(&ck);
                let mut d = String::from_str("Duplicate card: ");
                d.append(txt.as_str());
                return Err(
                    ValidationError {
                        error: String::from_str("duplicate_cards"),
                        details: Some(d),
                        card: Some(txt),
                    },
                );
            }
            j += 1;
        }
        assert(!repeats_earlier(all, k as int));
        k += 1;
    }
    assert forall|i: int, j: int| 0 <= i < j < all.len() implies all[i].index()
        != all[j].index() by {
        assert(!repeats_earlier(all, j));
    }
    Ok(())
}

/// Whether some card of `known` has index `i`.
pub open spec fn is_known(known: Seq<Card>, i: int) -> bool {
    exists|k: int| 0 <= k < known.len() && #[trigger] known[k].index() == i
}

/// Whether `s` is strictly increasing.
pub open spec fn strictly_ascending(s: Seq<usize>) -> bool {
    forall|i: int, j: int| 0 <= i < j < s.len() ==> s[i] < s[j]
}

/// The indices below `n` of the cards not in `known`, ascending.
pub open spec fn deck_below(known: Seq<Card>, n: int) -> Seq<usize>
    decreases n,
{
    if n <= 0 {
        Seq::empty()
    } else if is_known(known, n - 1) {
        deck_below(known, n - 1)
    } else {
        deck_below(known, n - 1).push((n - 1) as usize)
    }
}

/// The indices in `[0, 52)` of the cards not in `known`, ascending.
pub fn build_deck(known: &[Card]) -> (r: Vec<usize>)
    ensures
        r@ == deck_below(known@, 52),
        strictly_ascending(r@),
        forall|k: int| 0 <= k < r@.len() ==> r@[k] < 52,
        forall|i: int| 0 <= i < 52 ==> (r@.contains(i as usize) <==> !is_known(known@, i)),
{
    let mut out: Vec<usize> = Vec::new();
    let mut i: usize = 0;
    while i < 52
        invariant
            0 <= i <= 52,
            out@ == deck_below(known@, i as int),
            strictly_ascending(out@),
            forall|k: int| 0 <= k < out@.len() ==> out@[k] < i,
            forall|x: int| 0 <= x < i ==> (out@.contains(x as usize) <==> !is_known(known@, x)),
        decreases 52 - i,
    {
        let mut found = false;
        let mut k: usize = 0;
        while k < known.len()
            invariant
                0 <= k <= known@.len(),
                found <==> exists|m: int| 0 <= m < k && #[trigger] known@[m].index() == i,
            decreases known@.len() - k,
        {
            if known[k].to_idx() == i {
                found = true;
            }
            k += 1;
        }
        let ghost before = out@;
        if !found {
            out.push(i);
        }
        assert forall|x: int| 0 <= x < i + 1 implies (out@.contains(x as usize) <==> !is_known(
            known@,
            x,
        )) by {
            if x < i {
                if out@.contains(x as usize) && !before.contains(x as usize) {
                    let w = choose|w: int| 0 <= w < out@.len() && out@[w] == x as usize;
                    assert(before[w] == x as usize);
                }
                if before.contains(x as usize) {
                    let w = choose|w: int| 0 <= w < before.len() && before[w] == x as usize;
                    assert(out@[w] == x as usize);
                }
            } else {
                if found {
                    assert(!out@.contains(x as usize));
                } else {
                    assert(out@[out@.len() - 1] == x as usize);
                }
            }
        }
        i += 1;
    }
    out
}

/// The position picked among `m` remaining ones for the draw `u`:
/// `floor(u / 2^32 * m)`.
pub open spec fn pick(u: u32, m: int) -> int {
    (u as int * m) / 0x1_0000_0000
}

/// `s` with the entries at `i` and `j` exchanged.
pub open spec fn swapped(s: Seq<usize>, i: int, j: int) -> Seq<usize> {
    s.update(i, s[j]).update(j, s[i])
}

/// Steps `i .. n` of a partial Fisher-Yates shuffle driven by a seeded LCG
/// in state `s`: the deck afterwards and the final state.
pub open spec fn fisher_yates(deck: Seq<usize>, i: int, n: int, s: u64) -> (Seq<usize>, u64)
    decreases n - i,
{
    if i >= n || i >= deck.len() {
        (deck, s)
    } else {
        let s2 = lcg_step(s);
        let j = i + pick(lcg_output(s2), deck.len() - i);
        fisher_yates(swapped(deck, i, j), i + 1, n, s2)
    }
}

/// The deck after the first `k` shuffle steps driven by draws `us`: step
/// `i` swaps position `i` with `i + pick(us[i], deck.len() - i)`.
pub open spec fn shuffle_steps(deck: Seq<usize>, us: Seq<u32>, k: int) -> Seq<usize>
    decreases k,
{
    if k <= 0 {
        deck
    } else {
        let d = shuffle_steps(deck, us, k - 1);
        swapped(d, k - 1, k - 1 + pick(us[k - 1], deck.len() - (k - 1)))
    }
}

proof fn lemma_shuffle_steps_extend(deck: Seq<usize>, us: Seq<u32>, u: u32, k: int)
    requires
        0 <= k <= us.len(),
    ensures
        shuffle_steps(deck, us.push(u), k) == shuffle_steps(deck, us, k),
    decreases k,
{
    if k > 0 {
        lemma_shuffle_steps_extend(deck, us, u, k - 1);
        assert(us.push(u)[k - 1] == us[k - 1]);
    }
}

proof fn lemma_pick_bound(u: u32, m: int)
    requires
        m > 0,
    ensures
        0 <= pick(u, m) < m,
{
    assert(0 <= (u as int * m) / 0x1_0000_0000 < m) by (nonlinear_arith)
        requires
            0 <= u < 0x1_0000_0000,
            m > 0,
    ;
}

/// Partial Fisher-Yates: for each `i < n`, swaps `deck[i]` with a uniformly
/// picked `deck[j]`, `i <= j`, and writes the new `deck[i]` to `out[i]`.
pub fn draw_indices(deck: &mut Vec<usize>, n: usize, rng: &mut WorkerRng, out: &mut Vec<usize>)
    requires
        n <= old(deck)@.len(),
        n <= old(out)@.len(),
    ensures
        final(deck)@.len() == old(deck)@.len(),
        final(deck)@.to_multiset() == old(deck)@.to_multiset(),
        final(out)@.len() == old(out)@.len(),
        forall|k: int| 0 <= k < n ==> final(out)@[k] == final(deck)@[k],
        forall|k: int| n <= k < old(out)@.len() ==> final(out)@[k] == old(out)@[k],
        *old(rng) is Seeded ==> {
            let fy = fisher_yates(old(deck)@, 0, n as int, (*old(rng))->Seeded_0);
            &&& final(deck)@ == fy.0
            &&& *final(rng) == WorkerRng::Seeded(fy.1)
        },
        *old(rng) is Thread ==> *final(rng) is Thread,
        exists|us: Seq<u32>|
            us.len() == n && final(deck)@ == #[trigger] shuffle_steps(old(deck)@, us, n as int),
{
    broadcast use vstd::seq_lib::group_to_multiset_ensures;

    let ghost d0 = deck@;
    let ghost mut us: Seq<u32> = Seq::empty();
    let ghost o0 = out@;
    let ghost r0 = *rng;
    let len = deck.len();
    let mut i: usize = 0;
    while i < n
        invariant
            0 <= i <= n <= len,
            len == deck@.len() == d0.len(),
            out@.len() == o0.len(),
            n <= o0.len(),
            deck@.to_multiset() == d0.to_multiset(),
            forall|k: int| 0 <= k < i ==> out@[k] == deck@[k],
            forall|k: int| n <= k < o0.len() ==> out@[k] == o0[k],
            r0 is Seeded ==> *rng is Seeded && fisher_yates(deck@, i as int, n as int, rng->Seeded_0)
                == fisher_yates(d0, 0, n as int, r0->Seeded_0),
            r0 is Thread ==> *rng is Thread,
            us.len() == i,
            deck@ == shuffle_steps(d0, us, i as int),
        decreases n - i,
    {
        let ghost before = deck@;
        let ghost s_before = *rng;
        let u = rng.next_u32();
        proof {
            lemma_pick_bound(u, (len - i) as int);
        }
        let j = i + ((u as u128 * (len - i) as u128) / 0x1_0000_0000) as usize;
        let a = deck[i];
        let b = deck[j];
        deck.set(i, b);
        deck.set(j, a);
        proof {
            assert(deck@ == swapped(before, i as int, j as int));
            lemma_swap_multiset(before, i as int, j as int);
            lemma_shuffle_steps_extend(d0, us, u, i as int);
            us = us.push(u);
            assert(deck@ == shuffle_steps(d0, us, i as int + 1));
        }
        out.set(i, deck[i]);
        i += 1;
    }
}

proof fn lemma_swap_multiset(s: Seq<usize>, i: int, j: int)
    requires
        0 <= i < s.len(),
        0 <= j < s.len(),
    ensures
        swapped(s, i, j).to_multiset() == s.to_multiset(),
{
    broadcast use vstd::seq_lib::group_to_multiset_ensures;

    let t = s.update(i, s[j]);
    assert(t.to_multiset() == s.to_multiset().remove(s[i]).insert(s[j]));
    assert(swapped(s, i, j).to_multiset() == t.to_multiset().remove(t[j]).insert(s[i]));
    if i == j {
        assert(swapped(s, i, j) =~= s);
    } else {
        assert(t[j] == s[j]);
        assert(s.to_multiset().count(s[i]) > 0);
    }
    assert(swapped(s, i, j).to_multiset() =~= s.to_multiset());
}

} // verus!
