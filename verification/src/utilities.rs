//! Card primitives and small helpers shared across the engine: ranks, suits,
//! cards, card-string parsing, decks, and chip-value utilities.

use vstd::prelude::*;

verus! {

/// A regular expression pattern that can never be matched.
pub const UNMATCHABLE_PATTERN: &'static str = "(?!)";

/// The rank of a card, with a sentinel for face-down or opaque cards.
#[derive(Debug, Clone, Copy, PartialEq, Eq, Structural, Hash)]
pub enum Rank {
    Ace,
    Deuce,
    Trey,
    Four,
    Five,
    Six,
    Seven,
    Eight,
    Nine,
    Ten,
    Jack,
    Queen,
    King,
    Unknown,
}

/// The suit of a card, with a sentinel for face-down or opaque cards.
#[derive(Debug, Clone, Copy, PartialEq, Eq, Structural, Hash)]
pub enum Suit {
    Club,
    Diamond,
    Heart,
    Spade,
    Unknown,
}

/// The rank denoted by a single character of card text, if any.
pub open spec fn rank_of_char(c: char) -> Option<Rank> {
    if c == 'A' {
        Some(Rank::Ace)
    } else if c == '2' {
        Some(Rank::Deuce)
    } else if c == '3' {
        Some(Rank::Trey)
    } else if c == '4' {
        Some(Rank::Four)
    } else if c == '5' {
        Some(Rank::Five)
    } else if c == '6' {
        Some(Rank::Six)
    } else if c == '7' {
        Some(Rank::Seven)
    } else if c == '8' {
        Some(Rank::Eight)
    } else if c == '9' {
        Some(Rank::Nine)
    } else if c == 'T' {
        Some(Rank::Ten)
    } else if c == 'J' {
        Some(Rank::Jack)
    } else if c == 'Q' {
        Some(Rank::Queen)
    } else if c == 'K' {
        Some(Rank::King)
    } else if c == '?' {
        Some(Rank::Unknown)
    } else {
        None
    }
}

/// The character that denotes a rank in card text.
pub open spec fn char_of_rank(r: Rank) -> char {
    match r {
        Rank::Ace => 'A',
        Rank::Deuce => '2',
        Rank::Trey => '3',
        Rank::Four => '4',
        Rank::Five => '5',
        Rank::Six => '6',
        Rank::Seven => '7',
        Rank::Eight => '8',
        Rank::Nine => '9',
        Rank::Ten => 'T',
        Rank::Jack => 'J',
        Rank::Queen => 'Q',
        Rank::King => 'K',
        Rank::Unknown => '?',
    }
}

/// The suit denoted by a single character of card text, if any.
pub open spec fn suit_of_char(c: char) -> Option<Suit> {
    if c == 'c' {
        Some(Suit::Club)
    } else if c == 'd' {
        Some(Suit::Diamond)
    } else if c == 'h' {
        Some(Suit::Heart)
    } else if c == 's' {
        Some(Suit::Spade)
    } else if c == '?' {
        Some(Suit::Unknown)
    } else {
        None
    }
}

/// The character that denotes a suit in card text.
pub open spec fn char_of_suit(s: Suit) -> char {
    match s {
        Suit::Club => 'c',
        Suit::Diamond => 'd',
        Suit::Heart => 'h',
        Suit::Spade => 's',
        Suit::Unknown => '?',
    }
}

impl Rank {
    /// Reads a rank from its one-character textual form.
    pub fn from_char(c: char) -> (r: Option<Rank>)
        ensures
            r == rank_of_char(c),
    {
        if c == 'A' {
            Some(Rank::Ace)
        } else if c == '2' {
            Some(Rank::Deuce)
        } else if c == '3' {
            Some(Rank::Trey)
        } else if c == '4' {
            Some(Rank::Four)
        } else if c == '5' {
            Some(Rank::Five)
        } else if c == '6' {
            Some(Rank::Six)
        } else if c == '7' {
            Some(Rank::Seven)
        } else if c == '8' {
            Some(Rank::Eight)
        } else if c == '9' {
            Some(Rank::Nine)
        } else if c == 'T' {
            Some(Rank::Ten)
        } else if c == 'J' {
            Some(Rank::Jack)
        } else if c == 'Q' {
            Some(Rank::Queen)
        } else if c == 'K' {
            Some(Rank::King)
        } else if c == '?' {
            Some(Rank::Unknown)
        } else {
            None
        }
    }

    /// Writes the rank in its one-character textual form.
    pub fn to_char(self) -> (c: char)
        ensures
            c == char_of_rank(self),
    {
        match self {
            Rank::Ace => 'A',
            Rank::Deuce => '2',
            Rank::Trey => '3',
            Rank::Four => '4',
            Rank::Five => '5',
            Rank::Six => '6',
            Rank::Seven => '7',
            Rank::Eight => '8',
            Rank::Nine => '9',
            Rank::Ten => 'T',
            Rank::Jack => 'J',
            Rank::Queen => 'Q',
            Rank::King => 'K',
            Rank::Unknown => '?',
        }
    }
}

impl Suit {
    /// Reads a suit from its one-character textual form.
    pub fn from_char(c: char) -> (r: Option<Suit>)
        ensures
            r == suit_of_char(c),
    {
        if c == 'c' {
            Some(Suit::Club)
        } else if c == 'd' {
            Some(Suit::Diamond)
        } else if c == 'h' {
            Some(Suit::Heart)
        } else if c == 's' {
            Some(Suit::Spade)
        } else if c == '?' {
            Some(Suit::Unknown)
        } else {
            None
        }
    }

    /// Writes the suit in its one-character textual form.
    pub fn to_char(self) -> (c: char)
        ensures
            c == char_of_suit(self),
    {
        match self {
            Suit::Club => 'c',
            Suit::Diamond => 'd',
            Suit::Heart => 'h',
            Suit::Spade => 's',
            Suit::Unknown => '?',
        }
    }
}

/// A playing card: a rank paired with a suit.
#[derive(Debug, Clone, Copy, PartialEq, Eq, Structural, Hash)]
pub struct Card {
    pub rank: Rank,
    pub suit: Suit,
}

impl Card {
    /// The two-character textual form: the rank character then the suit
    /// character.
    pub fn to_chars(&self) -> (r: Vec<char>)
        ensures
            r@ == seq![char_of_rank(self.rank), char_of_suit(self.suit)],
    {
        let mut out: Vec<char> = Vec::new();
        out.push(self.rank.to_char());
        out.push(self.suit.to_char());
        proof {
            assert(out@ =~= seq![char_of_rank(self.rank), char_of_suit(self.suit)]);
        }
        out
    }
}

/// Why a card string failed to parse.
#[derive(Debug, Clone, Copy, PartialEq, Eq, Structural)]
pub enum CardParseError {
    /// A whitespace-separated token had odd length (and was not a lone `?`).
    OddTokenLength,
    /// A character in rank position denotes no rank.
    InvalidRank(char),
    /// A character in suit position denotes no suit.
    InvalidSuit(char),
}

/// Whether a character separates tokens in card text (Unicode whitespace).
pub open spec fn is_space(c: char) -> bool {
    ||| c == ' '
    ||| c == '\t'
    ||| c == '\n'
    ||| c == '\u{b}'
    ||| c == '\u{c}'
    ||| c == '\r'
    ||| c == '\u{85}'
    ||| c == '\u{a0}'
    ||| c == '\u{1680}'
    ||| ('\u{2000}' <= c && c <= '\u{200a}')
    ||| c == '\u{2028}'
    ||| c == '\u{2029}'
    ||| c == '\u{202f}'
    ||| c == '\u{205f}'
    ||| c == '\u{3000}'
}

/// Rewrites every occurrence of `10` to `T`, left to right.
pub open spec fn norm_tens(s: Seq<char>) -> Seq<char>
    decreases s.len(),
{
    if s.len() == 0 {
        Seq::empty()
    } else if s.len() >= 2 && s[0] == '1' && s[1] == '0' {
        seq!['T'] + norm_tens(s.skip(2))
    } else {
        seq![s[0]] + norm_tens(s.skip(1))
    }
}

/// Drops every comma.
pub open spec fn strip_commas(s: Seq<char>) -> Seq<char>
    decreases s.len(),
{
    if s.len() == 0 {
        Seq::empty()
    } else if s[0] == ',' {
        strip_commas(s.skip(1))
    } else {
        seq![s[0]] + strip_commas(s.skip(1))
    }
}

/// Length of the maximal non-whitespace prefix.
pub open spec fn run_len(t: Seq<char>) -> int
    decreases t.len(),
{
    if t.len() == 0 || is_space(t[0]) {
        0
    } else {
        1 + run_len(t.skip(1))
    }
}

pub proof fn lemma_run_len_bounds(t: Seq<char>)
    ensures
        0 <= run_len(t) <= t.len(),
    decreases t.len(),
{
    if t.len() != 0 && !is_space(t[0]) {
        lemma_run_len_bounds(t.skip(1));
    }
}

/// The run length is the position of the first whitespace character.
pub proof fn lemma_run_len_of(t: Seq<char>, k: int)
    requires
        0 <= k <= t.len(),
        forall|m: int| 0 <= m < k ==> !is_space(t[m]),
        k == t.len() || is_space(t[k]),
    ensures
        run_len(t) == k,
    decreases t.len(),
{
    if t.len() != 0 && !is_space(t[0]) {
        assert(k >= 1);
        assert(forall|m: int| 0 <= m < k - 1 ==> !is_space(t.skip(1)[m]));
        lemma_run_len_of(t.skip(1), k - 1);
    }
}

/// Reads an even-length token as rank-suit character pairs.
pub open spec fn parse_pairs(t: Seq<char>) -> Result<Seq<Card>, CardParseError>
    recommends
        t.len() % 2 == 0,
    decreases t.len(),
{
    if t.len() == 0 {
        Ok(Seq::empty())
    } else if t.len() == 1 {
        Err(CardParseError::OddTokenLength)
    } else {
        match rank_of_char(t[0]) {
            Option::None => Err(CardParseError::InvalidRank(t[0])),
            Option::Some(r) => match suit_of_char(t[1]) {
                Option::None => Err(CardParseError::InvalidSuit(t[1])),
                Option::Some(su) => match parse_pairs(t.skip(2)) {
                    Ok(rest) => Ok(seq![Card { rank: r, suit: su }] + rest),
                    Err(e) => Err(e),
                },
            },
        }
    }
}

/// Reads one whitespace-delimited token: a lone `?` is one opaque card,
/// otherwise the token must pair up evenly into rank and suit characters.
pub open spec fn parse_run(t: Seq<char>) -> Result<Seq<Card>, CardParseError> {
    if t.len() == 1 && t[0] == '?' {
        Ok(seq![Card { rank: Rank::Unknown, suit: Suit::Unknown }])
    } else if t.len() % 2 == 1 {
        Err(CardParseError::OddTokenLength)
    } else {
        parse_pairs(t)
    }
}

/// Reads a whole cleaned card string as a flat card sequence, token by token.
pub open spec fn parse_tokens(t: Seq<char>) -> Result<Seq<Card>, CardParseError>
    decreases t.len(),
    via parse_tokens_decreases
{
    if t.len() == 0 {
        Ok(Seq::empty())
    } else if is_space(t[0]) {
        parse_tokens(t.skip(1))
    } else {
        let n = run_len(t);
        match parse_run(t.take(n)) {
            Err(e) => Err(e),
            Ok(cs) => match parse_tokens(t.skip(n)) {
                Ok(rest) => Ok(cs + rest),
                Err(e) => Err(e),
            },
        }
    }
}

#[via_fn]
proof fn parse_tokens_decreases(t: Seq<char>) {
    lemma_run_len_bounds(t);
    if t.len() != 0 && !is_space(t[0]) {
        lemma_run_len_bounds(t.skip(1));
    }
}

/// What parsing a card string yields: `10` is first folded to `T`, commas are
/// dropped, and the whitespace-separated tokens are read as cards.
pub open spec fn parse_cards_spec(s: Seq<char>) -> Result<Seq<Card>, CardParseError> {
    parse_tokens(strip_commas(norm_tens(s)))
}

/// Round trip: writing a card out as its two characters and parsing the
/// text back yields exactly that card.
pub proof fn lemma_card_text_round_trip(c: Card)
    ensures
        parse_cards_spec(seq![char_of_rank(c.rank), char_of_suit(c.suit)]) == Ok::<
            Seq<Card>,
            CardParseError,
        >(seq![c]),
{
    let rc = char_of_rank(c.rank);
    let sc = char_of_suit(c.suit);
    let t = seq![rc, sc];
    assert(rc != '1' && rc != ',' && !is_space(rc) && rank_of_char(rc) == Option::Some(c.rank));
    assert(sc != ',' && !is_space(sc) && suit_of_char(sc) == Option::Some(c.suit));
    let u = seq![sc];
    let e = Seq::<char>::empty();
    assert(t.skip(1) =~= u);
    assert(u.skip(1) =~= e);
    assert(t.skip(2) =~= e);
    assert(t.take(2) =~= t);
    // No `10` and no comma occurs, so the cleaning passes change nothing.
    assert(norm_tens(e) =~= e);
    assert(norm_tens(u) =~= seq![sc] + norm_tens(u.skip(1)));
    assert(norm_tens(u) =~= u);
    assert(norm_tens(t) =~= seq![rc] + norm_tens(t.skip(1)));
    assert(norm_tens(t) =~= t);
    assert(strip_commas(e) =~= e);
    assert(strip_commas(u) =~= seq![sc] + strip_commas(u.skip(1)));
    assert(strip_commas(u) =~= u);
    assert(strip_commas(t) =~= seq![rc] + strip_commas(t.skip(1)));
    assert(strip_commas(t) =~= t);
    // The whole text is one two-character run that pairs up as one card.
    lemma_run_len_of(t, 2);
    assert(parse_pairs(e) == Ok::<Seq<Card>, CardParseError>(Seq::<Card>::empty()));
    assert(parse_pairs(t) == Ok::<Seq<Card>, CardParseError>(seq![c])) by {
        assert(parse_pairs(t.skip(2)) == Ok::<Seq<Card>, CardParseError>(Seq::<Card>::empty()));
        assert(seq![Card { rank: c.rank, suit: c.suit }] + Seq::<Card>::empty() =~= seq![c]);
    }
    assert(parse_run(t) == Ok::<Seq<Card>, CardParseError>(seq![c]));
    assert(parse_tokens(e) == Ok::<Seq<Card>, CardParseError>(Seq::<Card>::empty()));
    assert(parse_tokens(t) == Ok::<Seq<Card>, CardParseError>(seq![c])) by {
        assert(parse_tokens(t.skip(2)) == Ok::<Seq<Card>, CardParseError>(Seq::<Card>::empty()));
        assert(parse_run(t.take(2)) == Ok::<Seq<Card>, CardParseError>(seq![c]));
        assert(seq![c] + Seq::<Card>::empty() =~= seq![c]);
    }
}

/// Whether a character separates tokens in card text.
pub fn is_space_char(c: char) -> (r: bool)
    ensures
        r == is_space(c),
{
    c == ' ' || c == '\t' || c == '\n' || c == '\u{b}' || c == '\u{c}' || c == '\r'
        || c == '\u{85}' || c == '\u{a0}' || c == '\u{1680}'
        || ('\u{2000}' <= c && c <= '\u{200a}') || c == '\u{2028}' || c == '\u{2029}'
        || c == '\u{202f}' || c == '\u{205f}' || c == '\u{3000}'
}

/// Collects the characters of a string.
pub fn chars_of(s: &str) -> (v: Vec<char>)
    ensures
        v@ == s@,
{
    let mut v: Vec<char> = Vec::new();
    for c in it: s.chars()
        invariant
            it.seq() == s@,
            v@ == s@.take(it.index() as int),
    {
        v.push(c);
        proof {
            assert(v@ =~= s@.take(it.index() as int + 1));
        }
    }
    proof {
        assert(v@ =~= s@);
    }
    v
}

fn normalize_tens(v: &Vec<char>) -> (out: Vec<char>)
    ensures
        out@ == norm_tens(v@),
{
    let mut out: Vec<char> = Vec::new();
    let mut i: usize = 0;
    proof {
        assert(v@.skip(0) =~= v@);
        assert(Seq::<char>::empty() + norm_tens(v@) =~= norm_tens(v@));
    }
    while i < v.len()
        invariant
            0 <= i <= v.len(),
            norm_tens(v@) == out@ + norm_tens(v@.skip(i as int)),
        decreases v.len() - i,
    {
        if i + 1 < v.len() && v[i] == '1' && v[i + 1] == '0' {
            out.push('T');
            proof {
                assert(v@.skip(i as int).skip(2) =~= v@.skip(i as int + 2));
            }
            i = i + 2;
        } else {
            out.push(v[i]);
            proof {
                assert(v@.skip(i as int).skip(1) =~= v@.skip(i as int + 1));
            }
            i = i + 1;
        }
    }
    proof {
        assert(v@.skip(i as int) =~= Seq::<char>::empty());
        assert(out@ + Seq::<char>::empty() =~= out@);
    }
    out
}

fn remove_commas(v: &Vec<char>) -> (out: Vec<char>)
    ensures
        out@ == strip_commas(v@),
{
    let mut out: Vec<char> = Vec::new();
    let mut i: usize = 0;
    proof {
        assert(v@.skip(0) =~= v@);
        assert(Seq::<char>::empty() + strip_commas(v@) =~= strip_commas(v@));
    }
    while i < v.len()
        invariant
            0 <= i <= v.len(),
            strip_commas(v@) == out@ + strip_commas(v@.skip(i as int)),
        decreases v.len() - i,
    {
        if v[i] != ',' {
            out.push(v[i]);
        }
        proof {
            assert(v@.skip(i as int).skip(1) =~= v@.skip(i as int + 1));
        }
        i = i + 1;
    }
    proof {
        assert(v@.skip(i as int) =~= Seq::<char>::empty());
        assert(out@ + Seq::<char>::empty() =~= out@);
    }
    out
}

impl Card {
    /// A fully opaque card.
    pub fn unknown() -> (c: Card)
        ensures
            c == (Card { rank: Rank::Unknown, suit: Suit::Unknown }),
    {
        Card { rank: Rank::Unknown, suit: Suit::Unknown }
    }

    /// Makes a card from a rank and a suit.
    pub fn new(rank: Rank, suit: Suit) -> (c: Card)
        ensures
            c == (Card { rank, suit }),
    {
        Card { rank, suit }
    }

    /// The ranks of the given cards, in order.
    pub fn get_ranks(cards: &Vec<Card>) -> (r: Vec<Rank>)
        ensures
            r@ == cards@.map_values(|c: Card| c.rank),
    {
        let mut r: Vec<Rank> = Vec::new();
        let mut i: usize = 0;
        while i < cards.len()
            invariant
                0 <= i <= cards.len(),
                r@ == cards@.take(i as int).map_values(|c: Card| c.rank),
            decreases cards.len() - i,
        {
            r.push(cards[i].rank);
            proof {
                assert(cards@.take(i as int + 1) =~= cards@.take(i as int).push(cards@[i as int]));
                assert(r@ =~= cards@.take(i as int + 1).map_values(|c: Card| c.rank));
            }
            i = i + 1;
        }
        proof {
            assert(cards@.take(i as int) =~= cards@);
        }
        r
    }

    /// The suits of the given cards, in order.
    pub fn get_suits(cards: &Vec<Card>) -> (r: Vec<Suit>)
        ensures
            r@ == cards@.map_values(|c: Card| c.suit),
    {
        let mut r: Vec<Suit> = Vec::new();
        let mut i: usize = 0;
        while i < cards.len()
            invariant
                0 <= i <= cards.len(),
                r@ == cards@.take(i as int).map_values(|c: Card| c.suit),
            decreases cards.len() - i,
        {
            r.push(cards[i].suit);
            proof {
                assert(cards@.take(i as int + 1) =~= cards@.take(i as int).push(cards@[i as int]));
                assert(r@ =~= cards@.take(i as int + 1).map_values(|c: Card| c.suit));
            }
            i = i + 1;
        }
        proof {
            assert(cards@.take(i as int) =~= cards@);
        }
        r
    }

    /// Some rank occurs more than once.
    pub open spec fn spec_paired(cards: Seq<Card>) -> bool {
        exists|i: int, j: int|
            0 <= i < j < cards.len() && cards[i].rank == cards[j].rank
    }

    /// All cards share one suit (vacuously true of fewer than two cards).
    pub open spec fn spec_suited(cards: Seq<Card>) -> bool {
        forall|i: int, j: int|
            0 <= i < cards.len() && 0 <= j < cards.len() ==> cards[i].suit == cards[j].suit
    }

    /// All suits are pairwise distinct.
    pub open spec fn spec_rainbow(cards: Seq<Card>) -> bool {
        forall|i: int, j: int|
            0 <= i < j < cards.len() ==> cards[i].suit != cards[j].suit
    }

    /// Whether some rank repeats among the cards.
    pub fn are_paired(cards: &Vec<Card>) -> (r: bool)
        ensures
            r == Self::spec_paired(cards@),
    {
        let mut i: usize = 0;
        while i < cards.len()
            invariant
                0 <= i <= cards.len(),
                forall|a: int, b: int|
                    0 <= a < b < cards@.len() && a < i ==> cards@[a].rank != cards@[b].rank,
            decreases cards.len() - i,
        {
            let mut j: usize = i + 1;
            while j < cards.len()
                invariant
                    0 <= i < j <= cards.len(),
                    forall|b: int| i < b < j ==> cards@[i as int].rank != cards@[b].rank,
                decreases cards.len() - j,
            {
                if cards[i].rank == cards[j].rank {
                    return true;
                }
                j = j + 1;
            }
            i = i + 1;
        }
        false
    }

    /// Whether all cards share one suit.
    pub fn are_suited(cards: &Vec<Card>) -> (r: bool)
        ensures
            r == Self::spec_suited(cards@),
    {
        if cards.len() == 0 {
            return true;
        }
        let mut i: usize = 1;
        while i < cards.len()
            invariant
                1 <= i <= cards.len(),
                cards.len() >= 1,
                forall|a: int| 0 <= a < i ==> #[trigger] cards@[a].suit == cards@[0].suit,
            decreases cards.len() - i,
        {
            if cards[i].suit != cards[0].suit {
                return false;
            }
            i = i + 1;
        }
        true
    }

    /// Whether all suits are pairwise distinct.
    pub fn are_rainbow(cards: &Vec<Card>) -> (r: bool)
        ensures
            r == Self::spec_rainbow(cards@),
    {
        let mut i: usize = 0;
        while i < cards.len()
            invariant
                0 <= i <= cards.len(),
                forall|a: int, b: int|
                    0 <= a < b < cards@.len() && a < i ==> cards@[a].suit != cards@[b].suit,
            decreases cards.len() - i,
        {
            let mut j: usize = i + 1;
            while j < cards.len()
                invariant
                    0 <= i < j <= cards.len(),
                    forall|b: int| i < b < j ==> cards@[i as int].suit != cards@[b].suit,
                decreases cards.len() - j,
            {
                if cards[i].suit == cards[j].suit {
                    return false;
                }
                j = j + 1;
            }
            i = i + 1;
        }
        true
    }

    /// Parses a card string: whitespace-separated runs of two-character
    /// cards, with `10` read as `T`, commas ignored, and `?` or `??` read as
    /// an opaque card.
    #[verifier::loop_isolation(false)]
    #[verifier::rlimit(60)]
    pub fn parse_cards(s: &str) -> (r: Result<Vec<Card>, CardParseError>)
        ensures
            match r {
                Ok(v) => parse_cards_spec(s@) == Ok::<Seq<Card>, CardParseError>(v@),
                Err(e) => parse_cards_spec(s@) == Err::<Seq<Card>, CardParseError>(e),
            },
    {
        let raw = chars_of(s);
        let normd = normalize_tens(&raw);
        let cl = remove_commas(&normd);
        let ghost t0 = cl@;
        let mut cards: Vec<Card> = Vec::new();
        let mut i: usize = 0;
        proof {
            assert(t0.skip(0) =~= t0);
            match parse_tokens(t0) {
                Ok(rest) => {
                    assert(cards@ + rest =~= rest);
                },
                Err(_) => {},
            }
        }
        while i < cl.len()
            invariant
                0 <= i <= cl.len(),
                t0 == cl@,
                parse_tokens(t0) == (match parse_tokens(t0.skip(i as int)) {
                    Ok(rest) => Ok::<Seq<Card>, CardParseError>(cards@ + rest),
                    Err(e) => Err::<Seq<Card>, CardParseError>(e),
                }),
            decreases cl.len() - i,
        {
            if is_space_char(cl[i]) {
                proof {
                    assert(t0.skip(i as int).skip(1) =~= t0.skip(i as int + 1));
                }
                i = i + 1;
            } else {
                // Find the end of the current token.
                let mut j: usize = i + 1;
                while j < cl.len() && !is_space_char(cl[j])
                    invariant
                        i < j <= cl.len(),
                        t0 == cl@,
                        forall|m: int| i <= m < j ==> !is_space(t0[m]),
                    decreases cl.len() - j,
                {
                    j = j + 1;
                }
                proof {
                    assert(forall|m: int| 0 <= m < j - i ==> !is_space(t0.skip(i as int)[m]));
                    lemma_run_len_of(t0.skip(i as int), j - i);
                }
                let ghost run = t0.skip(i as int).take(j - i);
                // Parse the token on its own, then append.
                let mut tok: Vec<Card> = Vec::new();
                if j - i == 1 && cl[i] == '?' {
                    proof {
                        assert(run =~= seq![t0[i as int]]);
                    }
                    tok.push(Card { rank: Rank::Unknown, suit: Suit::Unknown });
                    proof {
                        assert(tok@ =~= seq![Card { rank: Rank::Unknown, suit: Suit::Unknown }]);
                        assert(parse_run(run) == Ok::<Seq<Card>, CardParseError>(tok@));
                    }
                } else if (j - i) % 2 == 1 {
                    proof {
                        assert(run.len() == j - i);
                        assert(parse_run(run) == Err::<Seq<Card>, CardParseError>(
                            CardParseError::OddTokenLength,
                        ));
                        assert(t0.skip(i as int).len() > 0);
                        assert(!is_space(t0.skip(i as int)[0]));
                        assert(parse_tokens(t0.skip(i as int)) == Err::<
                            Seq<Card>,
                            CardParseError,
                        >(CardParseError::OddTokenLength));
                    }
                    return Err(CardParseError::OddTokenLength);
                } else {
                    // Read the token two characters at a time.
                    let mut k: usize = i;
                    proof {
                        assert(run.skip(0) =~= run);
                        match parse_pairs(run) {
                            Ok(rest) => {
                                assert(tok@ + rest =~= rest);
                            },
                            Err(_) => {},
                        }
                    }
                    while k < j
                        invariant
                            i <= k <= j <= cl.len(),
                            t0 == cl@,
                            (k - i) % 2 == 0,
                            (j - i) % 2 == 0,
                            j - i >= 2,
                            run == t0.skip(i as int).take(j - i),
                            run.len() == j - i,
                            parse_pairs(run) == (match parse_pairs(run.skip(k - i)) {
                                Ok(rest) => Ok::<Seq<Card>, CardParseError>(tok@ + rest),
                                Err(e) => Err::<Seq<Card>, CardParseError>(e),
                            }),
                        decreases j - k,
                    {
                        proof {
                            assert(run.skip(k - i)[0] == t0[k as int]);
                            assert(run.skip(k - i)[1] == t0[k as int + 1]);
                            assert(run.skip(k - i).skip(2) =~= run.skip(k - i + 2));
                        }
                        proof {
                            assert(run.skip(k - i).len() >= 2);
                        }
                        let rank = match Rank::from_char(cl[k]) {
                            Option::Some(r) => r,
                            Option::None => {
                                proof {
                                    let e = CardParseError::InvalidRank(t0[k as int]);
                                    assert(parse_pairs(run.skip(k - i)) == Err::<
                                        Seq<Card>,
                                        CardParseError,
                                    >(e));
                                    assert(parse_run(run) == Err::<Seq<Card>, CardParseError>(e));
                                    assert(t0.skip(i as int).len() > 0);
                                    assert(!is_space(t0.skip(i as int)[0]));
                                    assert(parse_tokens(t0.skip(i as int)) == Err::<
                                        Seq<Card>,
                                        CardParseError,
                                    >(e));
                                }
                                return Err(CardParseError::InvalidRank(cl[k]));
                            },
                        };
                        let suit = match Suit::from_char(cl[k + 1]) {
                            Option::Some(su) => su,
                            Option::None => {
                                proof {
                                    let e = CardParseError::InvalidSuit(t0[k as int + 1]);
                                    assert(parse_pairs(run.skip(k - i)) == Err::<
                                        Seq<Card>,
                                        CardParseError,
                                    >(e));
                                    assert(parse_run(run) == Err::<Seq<Card>, CardParseError>(e));
                                    assert(t0.skip(i as int).len() > 0);
                                    assert(!is_space(t0.skip(i as int)[0]));
                                    assert(parse_tokens(t0.skip(i as int)) == Err::<
                                        Seq<Card>,
                                        CardParseError,
                                    >(e));
                                }
                                return Err(CardParseError::InvalidSuit(cl[k + 1]));
                            },
                        };
                        let ghost tok_old = tok@;
                        tok.push(Card { rank, suit });
                        proof {
                            match parse_pairs(run.skip(k - i + 2)) {
                                Ok(rest) => {
                                    assert(tok_old + (seq![Card { rank, suit }] + rest)
                                        =~= tok@ + rest);
                                },
                                Err(_) => {},
                            }
                        }
                        k = k + 2;
                    }
                    proof {
                        assert(run.skip(k - i) =~= Seq::<char>::empty());
                        match parse_pairs(run.skip(k - i)) {
                            Ok(rest) => {
                                assert(tok@ + rest =~= tok@);
                            },
                            Err(_) => {},
                        }
                        assert(parse_run(run) == Ok::<Seq<Card>, CardParseError>(tok@));
                    }
                }
                proof {
                    assert(t0.skip(i as int).skip(j - i) =~= t0.skip(j as int));
                    let cs = tok@;
                    match parse_tokens(t0.skip(j as int)) {
                        Ok(rest) => {
                            assert((cards@ + cs) + rest =~= cards@ + (cs + rest));
                        },
                        Err(_) => {},
                    }
                }
                cards.append(&mut tok);
                i = j;
            }
        }
        proof {
            assert(t0.skip(i as int) =~= Seq::<char>::empty());
            assert(cards@ + Seq::<Card>::empty() =~= cards@);
        }
        Ok(cards)
    }
}

/// The fixed rank sequences that the poker variants order their hands by.
pub struct RankOrder;

impl RankOrder {
    /// Deuce low, ace high: the standard order.
    pub open spec fn standard_spec() -> Seq<Rank> {
        seq![
            Rank::Deuce,
            Rank::Trey,
            Rank::Four,
            Rank::Five,
            Rank::Six,
            Rank::Seven,
            Rank::Eight,
            Rank::Nine,
            Rank::Ten,
            Rank::Jack,
            Rank::Queen,
            Rank::King,
            Rank::Ace,
        ]
    }

    /// Six low, ace high: the short-deck order.
    pub open spec fn short_deck_holdem_spec() -> Seq<Rank> {
        seq![
            Rank::Six,
            Rank::Seven,
            Rank::Eight,
            Rank::Nine,
            Rank::Ten,
            Rank::Jack,
            Rank::Queen,
            Rank::King,
            Rank::Ace,
        ]
    }

    /// Ace low, king high: the regular (low-game) order.
    pub open spec fn regular_spec() -> Seq<Rank> {
        seq![
            Rank::Ace,
            Rank::Deuce,
            Rank::Trey,
            Rank::Four,
            Rank::Five,
            Rank::Six,
            Rank::Seven,
            Rank::Eight,
            Rank::Nine,
            Rank::Ten,
            Rank::Jack,
            Rank::Queen,
            Rank::King,
        ]
    }

    /// Ace through eight: the eight-or-better low order.
    pub open spec fn eight_or_better_low_spec() -> Seq<Rank> {
        seq![
            Rank::Ace,
            Rank::Deuce,
            Rank::Trey,
            Rank::Four,
            Rank::Five,
            Rank::Six,
            Rank::Seven,
            Rank::Eight,
        ]
    }

    /// Jack, queen, king: the Kuhn poker order.
    pub open spec fn kuhn_poker_spec() -> Seq<Rank> {
        seq![Rank::Jack, Rank::Queen, Rank::King]
    }

    /// Ten through ace: the royal poker order.
    pub open spec fn royal_poker_spec() -> Seq<Rank> {
        seq![Rank::Ten, Rank::Jack, Rank::Queen, Rank::King, Rank::Ace]
    }

    /// The standard order.
    pub fn standard() -> (r: Vec<Rank>)
        ensures
            r@ == Self::standard_spec(),
    {
        let r = vec![
            Rank::Deuce,
            Rank::Trey,
            Rank::Four,
            Rank::Five,
            Rank::Six,
            Rank::Seven,
            Rank::Eight,
            Rank::Nine,
            Rank::Ten,
            Rank::Jack,
            Rank::Queen,
            Rank::King,
            Rank::Ace,
        ];
        proof {
            assert(r@ =~= Self::standard_spec());
        }
        r
    }

    /// The short-deck order.
    pub fn short_deck_holdem() -> (r: Vec<Rank>)
        ensures
            r@ == Self::short_deck_holdem_spec(),
    {
        let r = vec![
            Rank::Six,
            Rank::Seven,
            Rank::Eight,
            Rank::Nine,
            Rank::Ten,
            Rank::Jack,
            Rank::Queen,
            Rank::King,
            Rank::Ace,
        ];
        proof {
            assert(r@ =~= Self::short_deck_holdem_spec());
        }
        r
    }

    /// The regular (low-game) order.
    pub fn regular() -> (r: Vec<Rank>)
        ensures
            r@ == Self::regular_spec(),
    {
        let r = vec![
            Rank::Ace,
            Rank::Deuce,
            Rank::Trey,
            Rank::Four,
            Rank::Five,
            Rank::Six,
            Rank::Seven,
            Rank::Eight,
            Rank::Nine,
            Rank::Ten,
            Rank::Jack,
            Rank::Queen,
            Rank::King,
        ];
        proof {
            assert(r@ =~= Self::regular_spec());
        }
        r
    }

    /// The eight-or-better low order.
    pub fn eight_or_better_low() -> (r: Vec<Rank>)
        ensures
            r@ == Self::eight_or_better_low_spec(),
    {
        let r = vec![
            Rank::Ace,
            Rank::Deuce,
            Rank::Trey,
            Rank::Four,
            Rank::Five,
            Rank::Six,
            Rank::Seven,
            Rank::Eight,
        ];
        proof {
            assert(r@ =~= Self::eight_or_better_low_spec());
        }
        r
    }

    /// The Kuhn poker order.
    pub fn kuhn_poker() -> (r: Vec<Rank>)
        ensures
            r@ == Self::kuhn_poker_spec(),
    {
        let r = vec![Rank::Jack, Rank::Queen, Rank::King];
        proof {
            assert(r@ =~= Self::kuhn_poker_spec());
        }
        r
    }

    /// The royal poker order.
    pub fn royal_poker() -> (r: Vec<Rank>)
        ensures
            r@ == Self::royal_poker_spec(),
    {
        let r = vec![Rank::Ten, Rank::Jack, Rank::Queen, Rank::King, Rank::Ace];
        proof {
            assert(r@ =~= Self::royal_poker_spec());
        }
        r
    }
}

/// The four cards of one rank, club first.
pub open spec fn suits_of_rank(r: Rank) -> Seq<Card> {
    seq![
        Card { rank: r, suit: Suit::Club },
        Card { rank: r, suit: Suit::Diamond },
        Card { rank: r, suit: Suit::Heart },
        Card { rank: r, suit: Suit::Spade },
    ]
}

/// All cards of the given ranks, rank by rank, club first within a rank.
pub open spec fn deck_of(order: Seq<Rank>) -> Seq<Card>
    decreases order.len(),
{
    if order.len() == 0 {
        Seq::empty()
    } else {
        suits_of_rank(order[0]) + deck_of(order.skip(1))
    }
}

/// Standard deck builders.
pub struct Deck;

impl Deck {
    fn build(order: &Vec<Rank>) -> (out: Vec<Card>)
        ensures
            out@ == deck_of(order@),
    {
        let mut out: Vec<Card> = Vec::new();
        let mut i: usize = 0;
        proof {
            assert(order@.skip(0) =~= order@);
            assert(Seq::<Card>::empty() + deck_of(order@) =~= deck_of(order@));
        }
        while i < order.len()
            invariant
                0 <= i <= order.len(),
                deck_of(order@) == out@ + deck_of(order@.skip(i as int)),
            decreases order.len() - i,
        {
            let ghost out0 = out@;
            let r = order[i];
            out.push(Card { rank: r, suit: Suit::Club });
            out.push(Card { rank: r, suit: Suit::Diamond });
            out.push(Card { rank: r, suit: Suit::Heart });
            out.push(Card { rank: r, suit: Suit::Spade });
            proof {
                assert(order@.skip(i as int).skip(1) =~= order@.skip(i as int + 1));
                assert(out@ =~= out0 + suits_of_rank(order@[i as int]));
                assert((out0 + suits_of_rank(order@[i as int])) + deck_of(order@.skip(i as int + 1))
                    =~= out0 + (suits_of_rank(order@[i as int]) + deck_of(order@.skip(i as int + 1))));
            }
            i = i + 1;
        }
        proof {
            assert(order@.skip(i as int) =~= Seq::<Rank>::empty());
            assert(out@ + Seq::<Card>::empty() =~= out@);
        }
        out
    }

    /// The 52-card standard deck.
    pub fn standard() -> (out: Vec<Card>)
        ensures
            out@ == deck_of(RankOrder::standard_spec()),
            out@.len() == 52,
    {
        let order = RankOrder::standard();
        let out = Self::build(&order);
        proof {
            reveal_with_fuel(deck_of, 14);
        }
        out
    }

    /// The 36-card short deck.
    pub fn short_deck_holdem() -> (out: Vec<Card>)
        ensures
            out@ == deck_of(RankOrder::short_deck_holdem_spec()),
            out@.len() == 36,
    {
        let order = RankOrder::short_deck_holdem();
        let out = Self::build(&order);
        proof {
            reveal_with_fuel(deck_of, 10);
        }
        out
    }
}

/// The least value among the present entries, if any.
pub open spec fn spec_min_or_none(values: Seq<Option<i64>>) -> Option<i64>
    decreases values.len(),
{
    if values.len() == 0 {
        Option::None
    } else {
        let rest = spec_min_or_none(values.skip(1));
        match values[0] {
            Option::None => rest,
            Option::Some(v) => match rest {
                Option::None => Option::Some(v),
                Option::Some(m) => Option::Some(if v <= m { v } else { m }),
            },
        }
    }
}

/// The greatest value among the present entries, if any.
pub open spec fn spec_max_or_none(values: Seq<Option<i64>>) -> Option<i64>
    decreases values.len(),
{
    if values.len() == 0 {
        Option::None
    } else {
        let rest = spec_max_or_none(values.skip(1));
        match values[0] {
            Option::None => rest,
            Option::Some(v) => match rest {
                Option::None => Option::Some(v),
                Option::Some(m) => Option::Some(if v >= m { v } else { m }),
            },
        }
    }
}

/// The least present value of the collection, or nothing.
#[verifier::loop_isolation(false)]
pub fn min_or_none(values: &Vec<Option<i64>>) -> (r: Option<i64>)
    ensures
        r == spec_min_or_none(values@),
{
    let mut r: Option<i64> = Option::None;
    let mut i: usize = values.len();
    while i > 0
        invariant
            0 <= i <= values.len(),
            r == spec_min_or_none(values@.skip(i as int)),
        decreases i,
    {
        i = i - 1;
        let cur = values[i];
        proof {
            assert(values@.skip(i as int)[0] == values@[i as int]);
            assert(values@.skip(i as int).skip(1) =~= values@.skip(i as int + 1));
        }
        r = match (cur, r) {
            (Option::None, prev) => prev,
            (Option::Some(v), Option::None) => Option::Some(v),
            (Option::Some(v), Option::Some(m)) => Option::Some(if v <= m { v } else { m }),
        };
    }
    proof {
        assert(values@.skip(0) =~= values@);
    }
    r
}

/// The greatest present value of the collection, or nothing.
#[verifier::loop_isolation(false)]
pub fn max_or_none(values: &Vec<Option<i64>>) -> (r: Option<i64>)
    ensures
        r == spec_max_or_none(values@),
{
    let mut r: Option<i64> = Option::None;
    let mut i: usize = values.len();
    while i > 0
        invariant
            0 <= i <= values.len(),
            r == spec_max_or_none(values@.skip(i as int)),
        decreases i,
    {
        i = i - 1;
        let cur = values[i];
        proof {
            assert(values@.skip(i as int)[0] == values@[i as int]);
            assert(values@.skip(i as int).skip(1) =~= values@.skip(i as int + 1));
        }
        r = match (cur, r) {
            (Option::None, prev) => prev,
            (Option::Some(v), Option::None) => Option::Some(v),
            (Option::Some(v), Option::Some(m)) => Option::Some(if v >= m { v } else { m }),
        };
    }
    proof {
        assert(values@.skip(0) =~= values@);
    }
    r
}

/// Integer division with remainder, as the engine splits pot amounts.
/// The engine only ever divides a non-negative pot total by a positive
/// winner count, so the domain is deliberately that; on it, truncating
/// and flooring division agree.
pub fn div_mod(dividend: i64, divisor: i64) -> (r: (i64, i64))
    requires
        divisor > 0,
        dividend >= 0,
    ensures
        r.0 == dividend / divisor,
        r.1 == dividend % divisor,
        r.0 * divisor + r.1 == dividend,
        0 <= r.1 < divisor,
{
    let q = dividend / divisor;
    let m = dividend % divisor;
    proof {
        vstd::arithmetic::div_mod::lemma_fundamental_div_mod(dividend as int, divisor as int);
        vstd::arithmetic::mul::lemma_mul_is_commutative(q as int, divisor as int);
    }
    (q, m)
}

/// Spreads sparse per-player values into a dense vector of the given size;
/// indices at or past `count` are dropped, absent indices get zero.
#[verifier::loop_isolation(false)]
pub fn clean_values(values: &std::collections::BTreeMap<usize, i64>, count: usize) -> (out: Vec<
    i64,
>)
    ensures
        out@.len() == count,
        forall|k: int|
            0 <= k < count ==> out@[k] == (if values@.contains_key(k as usize) {
                values@[k as usize]
            } else {
                0i64
            }),
{
    broadcast use vstd::std_specs::btree::group_btree_axioms;
    broadcast use vstd::laws_cmp::group_laws_cmp;

    let mut out: Vec<i64> = Vec::new();
    let mut k: usize = 0;
    while k < count
        invariant
            0 <= k <= count,
            out@.len() == k,
            forall|j: int|
                0 <= j < k ==> out@[j] == (if values@.contains_key(j as usize) {
                    values@[j as usize]
                } else {
                    0i64
                }),
        decreases count - k,
    {
        match values.get(&k) {
            Option::Some(v) => {
                out.push(*v);
            },
            Option::None => {
                out.push(0);
            },
        }
        k = k + 1;
    }
    out
}

/// The values rotated right by `count` places (left for negative `count`).
#[verifier::loop_isolation(false)]
pub fn rotated<T: Copy>(values: &Vec<T>, count: isize) -> (out: std::collections::VecDeque<T>)
    requires
        values@.len() <= isize::MAX as int,
        -(values@.len() as int) <= count <= values@.len() as int,
    ensures
        out@.len() == values@.len(),
        forall|i: int|
            0 <= i < values@.len() ==> out@[i] == values@[
                (i - count + values@.len()) % (values@.len() as int)
            ],
{
    let n = values.len();
    let shift: usize = if count >= 0 {
        n - (count as usize)
    } else {
        (-count) as usize
    };
    // The element at output position i came from input position (i + shift) mod n.
    let mut out: std::collections::VecDeque<T> = std::collections::VecDeque::new();
    let mut i: usize = 0;
    while i < n
        invariant
            0 <= i <= n,
            n == values@.len(),
            0 <= shift <= n,
            out@.len() == i,
            forall|j: int| 0 <= j < i ==> out@[j] == values@[(j + shift) % (n as int)],
        decreases n - i,
    {
        let src = if i >= n - shift {
            i - (n - shift)
        } else {
            i + shift
        };
        proof {
            assert((i as int + shift) % (n as int) == src as int) by {
                if i >= n - shift {
                    vstd::arithmetic::div_mod::lemma_mod_sub_multiples_vanish(
                        i as int + shift,
                        n as int,
                    );
                    vstd::arithmetic::div_mod::lemma_small_mod((i + shift - n) as nat, n as nat);
                } else {
                    vstd::arithmetic::div_mod::lemma_small_mod((i + shift) as nat, n as nat);
                }
            }
        }
        out.push_back(values[src]);
        i = i + 1;
    }
    proof {
        assert forall|i: int| 0 <= i < values@.len() implies out@[i] == values@[
            (i - count + values@.len()) % (values@.len() as int)
        ] by {
            let ln = values@.len() as int;
            assert(out@[i] == values@[(i + shift) % ln]);
            assert((i + shift) % ln == (i - count + ln) % ln) by {
                if count >= 0 {
                    assert(i + shift == i - count + ln);
                } else {
                    assert(i + shift == i - count);
                    vstd::arithmetic::div_mod::lemma_mod_add_multiples_vanish(i - count, ln);
                }
            }
        }
    }
    out
}

/// All `k`-element combinations of a sequence, in lexicographic order of
/// positions: first those containing the head, then those of the tail.
pub open spec fn combinations_spec<T>(s: Seq<T>, k: nat) -> Seq<Seq<T>>
    decreases s.len(), k,
{
    if k == 0 {
        seq![Seq::empty()]
    } else if s.len() < k {
        Seq::empty()
    } else {
        combinations_spec(s.skip(1), (k - 1) as nat).map_values(|c: Seq<T>| seq![s[0]] + c)
            + combinations_spec(s.skip(1), k)
    }
}

/// Relies on itertools' `Itertools::combinations`: the `k`-element
/// combinations of the input, in lexicographic order of positions.
#[verifier::external_body]
pub(crate) fn combinations<T: Copy>(items: &Vec<T>, k: usize) -> (r: Vec<Vec<T>>)
    ensures
        r@.map_values(|v: Vec<T>| v@) == combinations_spec(items@, k as nat),
{
    itertools::Itertools::combinations(items.iter().copied(), k).collect()
}

/// Relies on rand's `SliceRandom::shuffle` with the thread-local
/// generator: the result holds exactly the given cards, reordered.
#[verifier::external_body]
pub fn shuffled(values: &Vec<Card>) -> (r: Vec<Card>)
    ensures
        r@.len() == values@.len(),
        r@.to_multiset() == values@.to_multiset(),
{
    let mut out = values.clone();
    rand::seq::SliceRandom::shuffle(out.as_mut_slice(), &mut rand::thread_rng());
    out
}

/// The sign of a value: one, minus one, or zero.
pub fn sign(value: i64) -> (r: i64)
    ensures
        value > 0 ==> r == 1,
        value < 0 ==> r == -1,
        value == 0 ==> r == 0,
{
    if value > 0 {
        1
    } else if value < 0 {
        -1
    } else {
        0
    }
}


/// The default rake function: the house takes nothing, the whole amount
/// stays unraked.
pub fn rake(_state: &crate::state::State, amount: i64) -> (r: (i64, i64))
    ensures
        r.0 == 0,
        r.1 == amount,
{
    (0, amount)
}

/// Why a chip value string failed to parse.
#[derive(Debug, Clone, Copy, PartialEq, Eq, Structural)]
pub enum ValueParseError {
    /// The text reads as a decimal number, which this core does not
    /// administer.
    DecimalUnsupported,
    /// The text reads as no number at all.
    NotANumber,
}

/// Whether text (after the integer parser's own sign handling) reads as an
/// unsigned decimal integer: an optional plus, then a digit, then digits
/// or underscores.
pub open spec fn bigint_digits_ok(t: Seq<char>) -> bool {
    let u = if t.len() > 0 && t[0] == '+' && !(t.len() > 1 && t[1] == '+') {
        t.skip(1)
    } else {
        t
    };
    &&& u.len() > 0
    &&& '0' <= u[0] <= '9'
    &&& forall|i: int| 0 <= i < u.len() ==> ('0' <= #[trigger] u[i] <= '9' || u[i] == '_')
}

/// Whether text reads as a signed decimal integer the way the big-integer
/// parser reads one: an optional minus, then an unsigned integer.
pub open spec fn is_bigint_literal(s: Seq<char>) -> bool {
    let t = if s.len() > 0 && s[0] == '-' && !(s.len() > 1 && s[1] == '+') {
        s.skip(1)
    } else {
        s
    };
    bigint_digits_ok(t)
}

/// Whether the decimal parser accepts the text; a fixed function of the
/// characters alone.
pub uninterp spec fn decimal_accepted(s: Seq<char>) -> bool;

/// The arbitrary-precision integer type of num-bigint, opaque to the
/// verifier; `parse_value` carries one through.
#[verifier::external_type_specification]
#[verifier::external_body]
pub struct ExBigInt(num_bigint::BigInt);

/// Relies on num-bigint's `BigInt::from_str` (radix ten): it accepts
/// exactly an optional sign followed by a digit and then digits or
/// underscores.
#[verifier::external_body]
fn bigint_from_chars(v: &Vec<char>) -> (r: Option<num_bigint::BigInt>)
    ensures
        r is Some <==> is_bigint_literal(v@),
{
    let text: String = v.iter().collect();
    text.parse::<num_bigint::BigInt>().ok()
}

/// Relies on rust_decimal's `Decimal::from_str`: whether the text reads as
/// a decimal number, which depends on the characters alone.
#[verifier::external_body]
fn decimal_accepts(v: &Vec<char>) -> (r: bool)
    ensures
        r == decimal_accepted(v@),
{
    let text: String = v.iter().collect();
    text.parse::<rust_decimal::Decimal>().is_ok()
}

/// Parses a chip value: commas are dropped, an integer is returned as an
/// arbitrary-precision integer, and a decimal is recognized but refused.
pub fn parse_value(raw_value: &str) -> (r: Result<num_bigint::BigInt, ValueParseError>)
    ensures
        r is Ok <==> is_bigint_literal(strip_commas(raw_value@)),
        r matches Err(e) ==> e == (if decimal_accepted(strip_commas(raw_value@)) {
            ValueParseError::DecimalUnsupported
        } else {
            ValueParseError::NotANumber
        }),
{
    let chars = chars_of(raw_value);
    let cleaned = remove_commas(&chars);
    match bigint_from_chars(&cleaned) {
        Option::Some(v) => Ok(v),
        Option::None => {
            if decimal_accepts(&cleaned) {
                Err(ValueParseError::DecimalUnsupported)
            } else {
                Err(ValueParseError::NotANumber)
            }
        },
    }
}

/// A wall-clock time of day, held as plain values.
#[derive(Debug, Clone, Copy, PartialEq, Eq, Structural)]
pub struct TimeOfDay {
    pub hour: u32,
    pub minute: u32,
    pub second: u32,
}

impl TimeOfDay {
    /// Hours below twenty-four, minutes and seconds below sixty.
    pub open spec fn wf(self) -> bool {
        self.hour < 24 && self.minute < 60 && self.second < 60
    }
}

/// What parsing a time yields; a fixed function of the characters alone.
pub uninterp spec fn chrono_hms(s: Seq<char>) -> Option<(u32, u32, u32)>;

/// Relies on chrono's `NaiveTime::parse_from_str` with the
/// hours-minutes-seconds format, and on its `Timelike` accessors: the
/// result depends on the characters alone, and an accepted time has hours
/// below twenty-four and minutes and seconds below sixty.
#[verifier::external_body]
fn chrono_parse_hms(s: &str) -> (r: Option<(u32, u32, u32)>)
    ensures
        r == chrono_hms(s@),
        r matches Some(t) ==> t.0 < 24 && t.1 < 60 && t.2 < 60,
{
    match chrono::NaiveTime::parse_from_str(s, "%H:%M:%S") {
        Ok(t) => Some(
            (chrono::Timelike::hour(&t), chrono::Timelike::minute(&t), chrono::Timelike::second(
                &t,
            )),
        ),
        Err(_) => None,
    }
}

/// Parses a colon-separated time of day.
pub fn parse_time(raw_time: &str) -> (r: Option<TimeOfDay>)
    ensures
        r matches Some(t) ==> t.wf() && chrono_hms(raw_time@) == Some(
            (t.hour, t.minute, t.second),
        ),
        r is None <==> chrono_hms(raw_time@) is None,
{
    match chrono_parse_hms(raw_time) {
        Option::Some(t) => Option::Some(TimeOfDay { hour: t.0, minute: t.1, second: t.2 }),
        Option::None => Option::None,
    }
}

} // verus!
