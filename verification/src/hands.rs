//! Poker hands: each variant selects its best hand from hole and board
//! cards against its lookup, either over all fixed-size combinations or
//! over a hole-cards-by-board-cards split.

use vstd::prelude::*;

verus! {

use crate::lookups::{entry_for_cards, Entry, Lookup, LookupError};
use crate::utilities::{combinations, combinations_spec, parse_cards_spec, Card};

/// The supported hand variants; each fixes a lookup, a low flag, and a
/// card-selection rule.
#[derive(Debug, Clone, Copy, PartialEq, Eq, Structural)]
pub enum HandType {
    StandardHighHand,
    StandardLowHand,
    ShortDeckHoldemHand,
    EightOrBetterLowHand,
    RegularLowHand,
    OmahaHoldemHand,
    OmahaEightOrBetterLowHand,
    BadugiHand,
    StandardBadugiHand,
    KuhnPokerHand,
}

impl HandType {
    /// Whether a lower strength index wins under this variant.
    pub open spec fn spec_low(self) -> bool {
        match self {
            HandType::StandardLowHand => true,
            HandType::EightOrBetterLowHand => true,
            HandType::RegularLowHand => true,
            HandType::OmahaEightOrBetterLowHand => true,
            HandType::BadugiHand => true,
            HandType::StandardBadugiHand => true,
            _ => false,
        }
    }

    /// Whether a lower strength index wins under this variant.
    pub fn low(self) -> (r: bool)
        ensures
            r == self.spec_low(),
    {
        match self {
            HandType::StandardLowHand => true,
            HandType::EightOrBetterLowHand => true,
            HandType::RegularLowHand => true,
            HandType::OmahaEightOrBetterLowHand => true,
            HandType::BadugiHand => true,
            HandType::StandardBadugiHand => true,
            _ => false,
        }
    }

    /// The fixed number of cards that makes a hand, if the variant has one.
    pub open spec fn spec_card_count(self) -> Option<usize> {
        match self {
            HandType::BadugiHand => Option::None,
            HandType::StandardBadugiHand => Option::None,
            HandType::KuhnPokerHand => Option::Some(1usize),
            _ => Option::Some(5usize),
        }
    }

    /// The fixed number of cards that makes a hand, if the variant has one.
    pub fn card_count(self) -> (r: Option<usize>)
        ensures
            r == self.spec_card_count(),
    {
        match self {
            HandType::BadugiHand => Option::None,
            HandType::StandardBadugiHand => Option::None,
            HandType::KuhnPokerHand => Option::Some(1),
            _ => Option::Some(5),
        }
    }
}

/// A ranked hand: the variant, the cards that form it, and its strength,
/// together with (ghost) provenance: the table the strength came from.
#[derive(Clone)]
pub struct Hand {
    pub hand_type: HandType,
    pub cards: Vec<Card>,
    pub entry: Entry,
    pub lookup_rainbow: Ghost<bool>,
    pub lookup_rows: Ghost<Seq<crate::lookups::TableRow>>,
}

impl Hand {
    /// The cards that form this hand.
    pub fn cards(&self) -> (r: &Vec<Card>)
        ensures
            r@ == self.cards@,
    {
        &self.cards
    }

    /// The hand's strength entry.
    pub fn entry(&self) -> (r: Entry)
        ensures
            r == self.entry,
    {
        self.entry
    }

    /// Whether this hand beats the other under its own variant's ordering
    /// (for a low variant, the lower strength index wins).
    pub fn wins_against(&self, other: &Hand) -> (r: bool)
        ensures
            r == (if self.hand_type.spec_low() {
                self.entry.index < other.entry.index
            } else {
                self.entry.index > other.entry.index
            }),
    {
        if self.hand_type.low() {
            self.entry.index < other.entry.index
        } else {
            self.entry.index > other.entry.index
        }
    }
}

/// Each hole-card choice paired with each board-card choice, in order.
pub open spec fn cross_cands(hs: Seq<Seq<Card>>, bs: Seq<Seq<Card>>) -> Seq<Seq<Card>>
    decreases hs.len(),
{
    if hs.len() == 0 {
        Seq::empty()
    } else {
        with_boards(hs[0], bs) + cross_cands(hs.skip(1), bs)
    }
}

/// One hole-card choice joined with each board-card choice, in order.
pub open spec fn with_boards(h: Seq<Card>, bs: Seq<Seq<Card>>) -> Seq<Seq<Card>>
    decreases bs.len(),
{
    if bs.len() == 0 {
        Seq::empty()
    } else {
        seq![h + bs[0]] + with_boards(h, bs.skip(1))
    }
}

/// The card selections a variant considers, in enumeration order.
pub open spec fn candidates_spec(ht: HandType, hole: Seq<Card>, board: Seq<Card>) -> Seq<
    Seq<Card>,
> {
    match ht {
        HandType::OmahaHoldemHand => cross_cands(
            combinations_spec(hole, 2),
            combinations_spec(board, 3),
        ),
        HandType::OmahaEightOrBetterLowHand => cross_cands(
            combinations_spec(hole, 2),
            combinations_spec(board, 3),
        ),
        HandType::BadugiHand => badugi_cands(hole + board),
        HandType::StandardBadugiHand => badugi_cands(hole + board),
        HandType::KuhnPokerHand => combinations_spec(hole + board, 1),
        _ => combinations_spec(hole + board, 5),
    }
}

/// The badugi selections: four cards down to one.
pub open spec fn badugi_cands(all: Seq<Card>) -> Seq<Seq<Card>> {
    combinations_spec(all, 4) + combinations_spec(all, 3) + combinations_spec(all, 2)
        + combinations_spec(all, 1)
}

/// Picks the position of the best candidate: under a high ordering the
/// last candidate with the greatest index, under a low ordering the last
/// with the least. Nothing is returned when no candidate has an entry.
fn select_best(lookup: &Lookup, cands: &Vec<Vec<Card>>, low: bool) -> (r: Option<(usize, Entry)>)
    ensures
        match r {
            Option::Some((bi, e)) => {
                &&& (bi as int) < cands@.len()
                &&& entry_for_cards(lookup.rainbow_required, lookup.rows@, cands@[bi as int]@)
                    == Ok::<Entry, LookupError>(e)
                &&& forall|i: int|
                    0 <= i < cands@.len() ==> (match entry_for_cards(
                        lookup.rainbow_required,
                        lookup.rows@,
                        (#[trigger] cands@[i])@,
                    ) {
                        Ok(e2) => if low {
                            e2.index >= e.index
                        } else {
                            e2.index <= e.index
                        },
                        Err(_) => true,
                    })
            },
            Option::None => forall|i: int|
                0 <= i < cands@.len() ==> entry_for_cards(
                    lookup.rainbow_required,
                    lookup.rows@,
                    (#[trigger] cands@[i])@,
                ) is Err,
        },
{
    let mut best: Option<(usize, Entry)> = Option::None;
    let mut i: usize = 0;
    while i < cands.len()
        invariant
            0 <= i <= cands@.len(),
            match best {
                Option::Some((bi, e)) => {
                    &&& (bi as int) < i
                    &&& entry_for_cards(lookup.rainbow_required, lookup.rows@, cands@[bi as int]@)
                        == Ok::<Entry, LookupError>(e)
                    &&& forall|j: int|
                        0 <= j < i ==> (match entry_for_cards(
                            lookup.rainbow_required,
                            lookup.rows@,
                            (#[trigger] cands@[j])@,
                        ) {
                            Ok(e2) => if low {
                                e2.index >= e.index
                            } else {
                                e2.index <= e.index
                            },
                            Err(_) => true,
                        })
                },
                Option::None => forall|j: int|
                    0 <= j < i ==> entry_for_cards(
                        lookup.rainbow_required,
                        lookup.rows@,
                        (#[trigger] cands@[j])@,
                    ) is Err,
            },
        decreases cands@.len() - i,
    {
        match lookup.get_entry_cards(&cands[i]) {
            Ok(e2) => {
                let replace = match best {
                    Option::Some((_, e)) => if low {
                        e2.index <= e.index
                    } else {
                        e2.index >= e.index
                    },
                    Option::None => true,
                };
                if replace {
                    best = Option::Some((i, e2));
                }
            },
            Err(_) => {},
        }
        i = i + 1;
    }
    best
}

/// Concatenates candidate vectors.
fn append_cands(out: &mut Vec<Vec<Card>>, more: Vec<Vec<Card>>)
    ensures
        final(out)@.map_values(|v: Vec<Card>| v@) == old(out)@.map_values(|v: Vec<Card>| v@)
            + more@.map_values(|v: Vec<Card>| v@),
{
    let mut more = more;
    let ghost out0 = out@;
    let ghost more0 = more@;
    out.append(&mut more);
    proof {
        assert(out@.map_values(|v: Vec<Card>| v@) =~= out0.map_values(|v: Vec<Card>| v@)
            + more0.map_values(|v: Vec<Card>| v@));
    }
}

/// Builds the candidate list of a variant.
#[verifier::loop_isolation(false)]
fn build_candidates(ht: HandType, hole: &Vec<Card>, board: &Vec<Card>) -> (r: Vec<Vec<Card>>)
    ensures
        r@.map_values(|v: Vec<Card>| v@) == candidates_spec(ht, hole@, board@),
{
    let all_is_split = matches!(ht, HandType::OmahaHoldemHand) || matches!(
        ht,
        HandType::OmahaEightOrBetterLowHand,
    );
    if all_is_split {
        let hs = combinations(hole, 2);
        let bs = combinations(board, 3);
        let ghost hv = hs@.map_values(|v: Vec<Card>| v@);
        let ghost bv = bs@.map_values(|v: Vec<Card>| v@);
        let mut out: Vec<Vec<Card>> = Vec::new();
        let mut i: usize = 0;
        proof {
            assert(hv.skip(0) =~= hv);
            assert(Seq::<Seq<Card>>::empty() + cross_cands(hv, bv) =~= cross_cands(hv, bv));
            assert(out@.map_values(|v: Vec<Card>| v@) =~= Seq::<Seq<Card>>::empty());
        }
        while i < hs.len()
            invariant
                0 <= i <= hs@.len(),
                cross_cands(hv, bv) == out@.map_values(|v: Vec<Card>| v@) + cross_cands(
                    hv.skip(i as int),
                    bv,
                ),
            decreases hs@.len() - i,
        {
            let ghost out_i = out@.map_values(|v: Vec<Card>| v@);
            let ghost hvi = hv[i as int];
            proof {
                assert(hvi == hs@[i as int]@);
                assert(hv.skip(i as int)[0] == hvi);
                assert(hv.skip(i as int).skip(1) =~= hv.skip(i as int + 1));
                assert(bv.skip(0) =~= bv);
            }
            let mut j: usize = 0;
            while j < bs.len()
                invariant
                    0 <= j <= bs@.len(),
                    0 <= i < hs@.len(),
                    out@.map_values(|v: Vec<Card>| v@).len() == out_i.len() + j,
                    out@.map_values(|v: Vec<Card>| v@).take(out_i.len() as int) == out_i,
                    with_boards(hvi, bv) == out@.map_values(|v: Vec<Card>| v@).skip(
                        out_i.len() as int,
                    ) + with_boards(hvi, bv.skip(j as int)),
                decreases bs@.len() - j,
            {
                let ghost outm = out@.map_values(|v: Vec<Card>| v@);
                proof {
                    assert(bv.skip(j as int)[0] == bs@[j as int]@);
                    assert(bv.skip(j as int).skip(1) =~= bv.skip(j as int + 1));
                }
                let mut cand = hs[i].clone();
                let mut btmp = bs[j].clone();
                proof {
                    assert(cand@ =~= hs@[i as int]@);
                    assert(btmp@ =~= bs@[j as int]@);
                }
                cand.append(&mut btmp);
                proof {
                    assert(cand@ == hvi + bv[j as int]);
                }
                out.push(cand);
                proof {
                    let outm2 = out@.map_values(|v: Vec<Card>| v@);
                    assert(outm2 =~= outm.push(hvi + bv[j as int]));
                    assert(outm2.take(out_i.len() as int) =~= out_i);
                    assert(outm2.skip(out_i.len() as int) =~= outm.skip(out_i.len() as int).push(
                        hvi + bv[j as int],
                    ));
                    assert(outm.skip(out_i.len() as int).push(hvi + bv[j as int]) + with_boards(
                        hvi,
                        bv.skip(j as int + 1),
                    ) =~= outm.skip(out_i.len() as int) + (seq![hvi + bv[j as int]] + with_boards(
                        hvi,
                        bv.skip(j as int + 1),
                    )));
                }
                j = j + 1;
            }
            proof {
                let outm = out@.map_values(|v: Vec<Card>| v@);
                assert(bv.skip(j as int) =~= Seq::<Seq<Card>>::empty());
                assert(outm.skip(out_i.len() as int) + Seq::<Seq<Card>>::empty() =~= outm.skip(
                    out_i.len() as int,
                ));
                assert(with_boards(hvi, bv) == outm.skip(out_i.len() as int));
                assert(outm =~= out_i + outm.skip(out_i.len() as int));
                assert((out_i + with_boards(hvi, bv)) + cross_cands(hv.skip(i as int + 1), bv)
                    =~= out_i + (with_boards(hvi, bv) + cross_cands(hv.skip(i as int + 1), bv)));
            }
            i = i + 1;
        }
        proof {
            assert(hv.skip(i as int) =~= Seq::<Seq<Card>>::empty());
            assert(out@.map_values(|v: Vec<Card>| v@) + Seq::<Seq<Card>>::empty()
                =~= out@.map_values(|v: Vec<Card>| v@));
        }
        out
    } else {
        let mut all = hole.clone();
        let mut b2 = board.clone();
        proof {
            assert(all@ =~= hole@);
            assert(b2@ =~= board@);
        }
        all.append(&mut b2);
        let is_badugi = matches!(ht, HandType::BadugiHand) || matches!(
            ht,
            HandType::StandardBadugiHand,
        );
        if is_badugi {
            let mut out = combinations(&all, 4);
            let c3 = combinations(&all, 3);
            let c2 = combinations(&all, 2);
            let c1 = combinations(&all, 1);
            append_cands(&mut out, c3);
            append_cands(&mut out, c2);
            append_cands(&mut out, c1);
            proof {
                assert(out@.map_values(|v: Vec<Card>| v@) =~= badugi_cands(all@));
            }
            out
        } else if matches!(ht, HandType::KuhnPokerHand) {
            combinations(&all, 1)
        } else {
            combinations(&all, 5)
        }
    }
}


/// Whether a table is the canonical one of a variant: the dense reindexing
/// of that variant's registered entries.
pub open spec fn table_ok(ht: HandType, rows: Seq<crate::lookups::TableRow>) -> bool {
    match ht {
        HandType::StandardHighHand => crate::lookups::rows_reindexed(
            crate::lookups::standard_raw().0,
            rows,
        ),
        HandType::StandardLowHand => crate::lookups::rows_reindexed(
            crate::lookups::standard_raw().0,
            rows,
        ),
        HandType::ShortDeckHoldemHand => crate::lookups::rows_reindexed(
            crate::lookups::short_deck_holdem_raw().0,
            rows,
        ),
        HandType::EightOrBetterLowHand => crate::lookups::rows_reindexed(
            crate::lookups::eight_or_better_raw().0,
            rows,
        ),
        HandType::RegularLowHand => crate::lookups::rows_reindexed(
            crate::lookups::regular_raw().0,
            rows,
        ),
        HandType::OmahaHoldemHand => crate::lookups::rows_reindexed(
            crate::lookups::standard_raw().0,
            rows,
        ),
        HandType::OmahaEightOrBetterLowHand => crate::lookups::rows_reindexed(
            crate::lookups::eight_or_better_raw().0,
            rows,
        ),
        HandType::BadugiHand => crate::lookups::rows_reindexed(
            crate::lookups::badugi_raw(crate::utilities::RankOrder::regular_spec()).0,
            rows,
        ),
        HandType::StandardBadugiHand => crate::lookups::rows_reindexed(
            crate::lookups::badugi_raw(crate::utilities::RankOrder::standard_spec()).0,
            rows,
        ),
        HandType::KuhnPokerHand => crate::lookups::rows_reindexed(
            crate::lookups::kuhn_poker_raw().0,
            rows,
        ),
    }
}

impl HandType {
    /// The lookup this variant ranks hands against.
    fn lookup_for(self) -> (r: Lookup)
        ensures
            r.rainbow_required == (self == HandType::BadugiHand || self
                == HandType::StandardBadugiHand),
            table_ok(self, r.rows@),
            crate::lookups::rows_dense(r.rows@),
    {
        match self {
            HandType::StandardHighHand => Lookup::standard(),
            HandType::StandardLowHand => Lookup::standard(),
            HandType::ShortDeckHoldemHand => Lookup::short_deck_holdem(),
            HandType::EightOrBetterLowHand => Lookup::eight_or_better(),
            HandType::RegularLowHand => Lookup::regular(),
            HandType::OmahaHoldemHand => Lookup::standard(),
            HandType::OmahaEightOrBetterLowHand => Lookup::eight_or_better(),
            HandType::BadugiHand => Lookup::badugi(),
            HandType::StandardBadugiHand => Lookup::standard_badugi(),
            HandType::KuhnPokerHand => Lookup::kuhn_poker(),
        }
    }

    /// The best hand this variant can make from the given hole and board
    /// card strings: the selection whose entry is the greatest (the least
    /// for a low variant) among all the variant's selections with a
    /// registered entry. Fails when the cards do not parse or no selection
    /// forms a registered hand.
    pub fn from_game(&self, hole_cards_str: &str, board_cards_str: &str) -> (r: Result<
        Hand,
        LookupError,
    >)
        ensures
            r matches Ok(h) ==> {
                &&& h.hand_type == *self
                &&& parse_cards_spec(hole_cards_str@) is Ok
                &&& parse_cards_spec(board_cards_str@) is Ok
                &&& table_ok(*self, h.lookup_rows@)
                &&& h.lookup_rainbow@ == (*self == HandType::BadugiHand || *self
                    == HandType::StandardBadugiHand)
                &&& {
                    let hole = parse_cards_spec(hole_cards_str@)->Ok_0;
                    let board = parse_cards_spec(board_cards_str@)->Ok_0;
                    let cands = candidates_spec(*self, hole, board);
                    &&& exists|i: int|
                        0 <= i < cands.len() && entry_for_cards(
                            h.lookup_rainbow@,
                            h.lookup_rows@,
                            #[trigger] cands[i],
                        ) == Ok::<Entry, LookupError>(h.entry) && h.cards@ == cands[i]
                    &&& forall|i: int|
                        0 <= i < cands.len() ==> (match entry_for_cards(
                            h.lookup_rainbow@,
                            h.lookup_rows@,
                            #[trigger] cands[i],
                        ) {
                            Ok(e2) => if self.spec_low() {
                                e2.index >= h.entry.index
                            } else {
                                e2.index <= h.entry.index
                            },
                            Err(_) => true,
                        })
                }
            },
            r is Err ==> (parse_cards_spec(hole_cards_str@) is Err || parse_cards_spec(
                board_cards_str@,
            ) is Err || (exists|rows: Seq<crate::lookups::TableRow>|
                #[trigger] table_ok(*self, rows) && forall|i: int|
                    #![auto]
                    0 <= i < candidates_spec(
                        *self,
                        parse_cards_spec(hole_cards_str@)->Ok_0,
                        parse_cards_spec(board_cards_str@)->Ok_0,
                    ).len() ==> entry_for_cards(
                        *self == HandType::BadugiHand || *self == HandType::StandardBadugiHand,
                        rows,
                        candidates_spec(
                            *self,
                            parse_cards_spec(hole_cards_str@)->Ok_0,
                            parse_cards_spec(board_cards_str@)->Ok_0,
                        )[i],
                    ) is Err)),
    {
        let hole = match Card::parse_cards(hole_cards_str) {
            Ok(v) => v,
            Err(e) => {
                return Err(LookupError::InvalidCard(e));
            },
        };
        let board = match Card::parse_cards(board_cards_str) {
            Ok(v) => v,
            Err(e) => {
                return Err(LookupError::InvalidCard(e));
            },
        };
        let lookup = self.lookup_for();
        let cands = build_candidates(*self, &hole, &board);
        match select_best(&lookup, &cands, self.low()) {
            Option::Some((bi, e)) => {
                let chosen = cands[bi].clone();
                proof {
                    assert(chosen@ =~= cands@[bi as int]@);
                    let cspec = candidates_spec(*self, hole@, board@);
                    assert(cands@.map_values(|v: Vec<Card>| v@) == cspec);
                    assert(cspec[bi as int] == cands@[bi as int]@);
                    assert forall|i: int|
                        0 <= i < cspec.len() implies (match entry_for_cards(
                        lookup.rainbow_required,
                        lookup.rows@,
                        #[trigger] cspec[i],
                    ) {
                        Ok(e2) => if self.spec_low() {
                            e2.index >= e.index
                        } else {
                            e2.index <= e.index
                        },
                        Err(_) => true,
                    }) by {
                        assert(cspec[i] == cands@[i]@);
                    }
                }
                Ok(
                    Hand {
                        hand_type: *self,
                        cards: chosen,
                        entry: e,
                        lookup_rainbow: Ghost(lookup.rainbow_required),
                        lookup_rows: Ghost(lookup.rows@),
                    },
                )
            },
            Option::None => Err(LookupError::InvalidHand),
        }
    }
}


/// A badugi hand over the ace-low order: one to four cards of distinct
/// ranks and suits, lower entries better.
#[derive(Clone)]
pub struct BadugiHand {
    pub cards: Vec<Card>,
    pub entry: Entry,
}

impl BadugiHand {
    /// The cards that form this hand.
    pub fn cards(&self) -> (r: &Vec<Card>)
        ensures
            r@ == self.cards@,
    {
        &self.cards
    }

    /// The hand's strength entry.
    pub fn entry(&self) -> (r: Entry)
        ensures
            r == self.entry,
    {
        self.entry
    }

    /// Ranks the exact given cards against the lookup.
    pub fn new(cards: Vec<Card>, lookup: &Lookup) -> (r: Result<BadugiHand, LookupError>)
        ensures
            match r {
                Ok(h) => entry_for_cards(lookup.rainbow_required, lookup.rows@, cards@) == Ok::<
                    Entry,
                    LookupError,
                >(h.entry) && h.cards@ == cards@,
                Err(e) => entry_for_cards(lookup.rainbow_required, lookup.rows@, cards@) == Err::<
                    Entry,
                    LookupError,
                >(e),
            },
    {
        match lookup.get_entry_cards(&cards) {
            Ok(entry) => Ok(BadugiHand { cards, entry }),
            Err(e) => Err(e),
        }
    }

    /// The best badugi selection (four cards down to one) from the hole
    /// and board card strings against the lookup.
    pub fn from_game(hole_cards_str: &str, board_cards_str: &str, lookup: &Lookup) -> (r: Result<
        BadugiHand,
        LookupError,
    >)
        ensures
            r matches Ok(h) ==> {
                &&& parse_cards_spec(hole_cards_str@) is Ok
                &&& parse_cards_spec(board_cards_str@) is Ok
                &&& {
                    let all = parse_cards_spec(hole_cards_str@)->Ok_0 + parse_cards_spec(
                        board_cards_str@,
                    )->Ok_0;
                    let cands = badugi_cands(all);
                    &&& exists|i: int|
                        0 <= i < cands.len() && entry_for_cards(
                            lookup.rainbow_required,
                            lookup.rows@,
                            #[trigger] cands[i],
                        ) == Ok::<Entry, LookupError>(h.entry) && h.cards@ == cands[i]
                    &&& forall|i: int|
                        0 <= i < cands.len() ==> (match entry_for_cards(
                            lookup.rainbow_required,
                            lookup.rows@,
                            #[trigger] cands[i],
                        ) {
                            Ok(e2) => e2.index >= h.entry.index,
                            Err(_) => true,
                        })
                }
            },
            r is Err ==> parse_cards_spec(hole_cards_str@) is Err || parse_cards_spec(
                board_cards_str@,
            ) is Err || (forall|i: int|
                0 <= i < badugi_cands(
                    parse_cards_spec(hole_cards_str@)->Ok_0 + parse_cards_spec(
                        board_cards_str@,
                    )->Ok_0,
                ).len() ==> entry_for_cards(
                    lookup.rainbow_required,
                    lookup.rows@,
                    #[trigger] badugi_cands(
                        parse_cards_spec(hole_cards_str@)->Ok_0 + parse_cards_spec(
                            board_cards_str@,
                        )->Ok_0,
                    )[i],
                ) is Err),
    {
        let hole = match Card::parse_cards(hole_cards_str) {
            Ok(v) => v,
            Err(e) => {
                return Err(LookupError::InvalidCard(e));
            },
        };
        let board = match Card::parse_cards(board_cards_str) {
            Ok(v) => v,
            Err(e) => {
                return Err(LookupError::InvalidCard(e));
            },
        };
        let mut all = hole;
        let mut b2 = board;
        all.append(&mut b2);
        let mut cands = combinations(&all, 4);
        let c3 = combinations(&all, 3);
        let c2 = combinations(&all, 2);
        let c1 = combinations(&all, 1);
        append_cands(&mut cands, c3);
        append_cands(&mut cands, c2);
        append_cands(&mut cands, c1);
        proof {
            assert(cands@.map_values(|v: Vec<Card>| v@) =~= badugi_cands(all@));
        }
        match select_best(lookup, &cands, true) {
            Option::Some((bi, e)) => {
                let chosen = cands[bi].clone();
                proof {
                    assert(chosen@ =~= cands@[bi as int]@);
                    let cspec = badugi_cands(all@);
                    assert(cspec[bi as int] == cands@[bi as int]@);
                    assert forall|i: int|
                        0 <= i < cspec.len() implies (match entry_for_cards(
                        lookup.rainbow_required,
                        lookup.rows@,
                        #[trigger] cspec[i],
                    ) {
                        Ok(e2) => e2.index >= e.index,
                        Err(_) => true,
                    }) by {
                        assert(cspec[i] == cands@[i]@);
                    }
                }
                Ok(BadugiHand { cards: chosen, entry: e })
            },
            Option::None => Err(LookupError::InvalidHand),
        }
    }
}

/// A badugi hand over the deuce-low standard order.
#[derive(Clone)]
pub struct StandardBadugiHand {
    pub cards: Vec<Card>,
    pub entry: Entry,
}

impl StandardBadugiHand {
    /// The cards that form this hand.
    pub fn cards(&self) -> (r: &Vec<Card>)
        ensures
            r@ == self.cards@,
    {
        &self.cards
    }

    /// The hand's strength entry.
    pub fn entry(&self) -> (r: Entry)
        ensures
            r == self.entry,
    {
        self.entry
    }

    /// Ranks the exact given cards against the lookup.
    pub fn new(cards: Vec<Card>, lookup: &Lookup) -> (r: Result<StandardBadugiHand, LookupError>)
        ensures
            match r {
                Ok(h) => entry_for_cards(lookup.rainbow_required, lookup.rows@, cards@) == Ok::<
                    Entry,
                    LookupError,
                >(h.entry) && h.cards@ == cards@,
                Err(e) => entry_for_cards(lookup.rainbow_required, lookup.rows@, cards@) == Err::<
                    Entry,
                    LookupError,
                >(e),
            },
    {
        match lookup.get_entry_cards(&cards) {
            Ok(entry) => Ok(StandardBadugiHand { cards, entry }),
            Err(e) => Err(e),
        }
    }

    /// The best badugi selection (four cards down to one) from the hole
    /// and board card strings against the lookup.
    pub fn from_game(hole_cards_str: &str, board_cards_str: &str, lookup: &Lookup) -> (r: Result<
        StandardBadugiHand,
        LookupError,
    >)
        ensures
            r matches Ok(h) ==> {
                &&& parse_cards_spec(hole_cards_str@) is Ok
                &&& parse_cards_spec(board_cards_str@) is Ok
                &&& {
                    let all = parse_cards_spec(hole_cards_str@)->Ok_0 + parse_cards_spec(
                        board_cards_str@,
                    )->Ok_0;
                    let cands = badugi_cands(all);
                    &&& exists|i: int|
                        0 <= i < cands.len() && entry_for_cards(
                            lookup.rainbow_required,
                            lookup.rows@,
                            #[trigger] cands[i],
                        ) == Ok::<Entry, LookupError>(h.entry) && h.cards@ == cands[i]
                    &&& forall|i: int|
                        0 <= i < cands.len() ==> (match entry_for_cards(
                            lookup.rainbow_required,
                            lookup.rows@,
                            #[trigger] cands[i],
                        ) {
                            Ok(e2) => e2.index >= h.entry.index,
                            Err(_) => true,
                        })
                }
            },
            r is Err ==> parse_cards_spec(hole_cards_str@) is Err || parse_cards_spec(
                board_cards_str@,
            ) is Err || (forall|i: int|
                0 <= i < badugi_cands(
                    parse_cards_spec(hole_cards_str@)->Ok_0 + parse_cards_spec(
                        board_cards_str@,
                    )->Ok_0,
                ).len() ==> entry_for_cards(
                    lookup.rainbow_required,
                    lookup.rows@,
                    #[trigger] badugi_cands(
                        parse_cards_spec(hole_cards_str@)->Ok_0 + parse_cards_spec(
                            board_cards_str@,
                        )->Ok_0,
                    )[i],
                ) is Err),
    {
        match BadugiHand::from_game(hole_cards_str, board_cards_str, lookup) {
            Ok(h) => Ok(StandardBadugiHand { cards: h.cards, entry: h.entry }),
            Err(e) => Err(e),
        }
    }
}

/// A Kuhn poker hand: a single card, higher entries better.
#[derive(Clone)]
pub struct KuhnPokerHand {
    pub cards: Vec<Card>,
    pub entry: Entry,
}

impl KuhnPokerHand {
    /// The cards that form this hand.
    pub fn cards(&self) -> (r: &Vec<Card>)
        ensures
            r@ == self.cards@,
    {
        &self.cards
    }

    /// The hand's strength entry.
    pub fn entry(&self) -> (r: Entry)
        ensures
            r == self.entry,
    {
        self.entry
    }

    /// Ranks the exact given cards against the lookup.
    pub fn new(cards: Vec<Card>, lookup: &Lookup) -> (r: Result<KuhnPokerHand, LookupError>)
        ensures
            match r {
                Ok(h) => entry_for_cards(lookup.rainbow_required, lookup.rows@, cards@) == Ok::<
                    Entry,
                    LookupError,
                >(h.entry) && h.cards@ == cards@,
                Err(e) => entry_for_cards(lookup.rainbow_required, lookup.rows@, cards@) == Err::<
                    Entry,
                    LookupError,
                >(e),
            },
    {
        match lookup.get_entry_cards(&cards) {
            Ok(entry) => Ok(KuhnPokerHand { cards, entry }),
            Err(e) => Err(e),
        }
    }

    /// The best single card among the hole and board card strings.
    pub fn from_game(hole_cards_str: &str, board_cards_str: &str, lookup: &Lookup) -> (r: Result<
        KuhnPokerHand,
        LookupError,
    >)
        ensures
            r matches Ok(h) ==> {
                &&& parse_cards_spec(hole_cards_str@) is Ok
                &&& parse_cards_spec(board_cards_str@) is Ok
                &&& {
                    let all = parse_cards_spec(hole_cards_str@)->Ok_0 + parse_cards_spec(
                        board_cards_str@,
                    )->Ok_0;
                    let cands = combinations_spec(all, 1);
                    &&& exists|i: int|
                        0 <= i < cands.len() && entry_for_cards(
                            lookup.rainbow_required,
                            lookup.rows@,
                            #[trigger] cands[i],
                        ) == Ok::<Entry, LookupError>(h.entry) && h.cards@ == cands[i]
                    &&& forall|i: int|
                        0 <= i < cands.len() ==> (match entry_for_cards(
                            lookup.rainbow_required,
                            lookup.rows@,
                            #[trigger] cands[i],
                        ) {
                            Ok(e2) => e2.index <= h.entry.index,
                            Err(_) => true,
                        })
                }
            },
            r is Err ==> parse_cards_spec(hole_cards_str@) is Err || parse_cards_spec(
                board_cards_str@,
            ) is Err || (forall|i: int|
                0 <= i < combinations_spec(
                    parse_cards_spec(hole_cards_str@)->Ok_0 + parse_cards_spec(
                        board_cards_str@,
                    )->Ok_0,
                    1,
                ).len() ==> entry_for_cards(
                    lookup.rainbow_required,
                    lookup.rows@,
                    #[trigger] combinations_spec(
                        parse_cards_spec(hole_cards_str@)->Ok_0 + parse_cards_spec(
                            board_cards_str@,
                        )->Ok_0,
                        1,
                    )[i],
                ) is Err),
    {
        let hole = match Card::parse_cards(hole_cards_str) {
            Ok(v) => v,
            Err(e) => {
                return Err(LookupError::InvalidCard(e));
            },
        };
        let board = match Card::parse_cards(board_cards_str) {
            Ok(v) => v,
            Err(e) => {
                return Err(LookupError::InvalidCard(e));
            },
        };
        let mut all = hole;
        let mut b2 = board;
        all.append(&mut b2);
        let cands = combinations(&all, 1);
        match select_best(lookup, &cands, false) {
            Option::Some((bi, e)) => {
                let chosen = cands[bi].clone();
                proof {
                    assert(chosen@ =~= cands@[bi as int]@);
                    let cspec = combinations_spec(all@, 1);
                    assert(cspec[bi as int] == cands@[bi as int]@);
                    assert forall|i: int|
                        0 <= i < cspec.len() implies (match entry_for_cards(
                        lookup.rainbow_required,
                        lookup.rows@,
                        #[trigger] cspec[i],
                    ) {
                        Ok(e2) => e2.index <= e.index,
                        Err(_) => true,
                    }) by {
                        assert(cspec[i] == cands@[i]@);
                    }
                }
                Ok(KuhnPokerHand { cards: chosen, entry: e })
            },
            Option::None => Err(LookupError::InvalidHand),
        }
    }
}

} // verus!
