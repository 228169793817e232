//! The betting state machine: a single authoritative object that
//! administers one hand of poker from ante posting through betting to the
//! pot computation, phase by phase.

use vstd::prelude::*;

verus! {

use crate::utilities::Card;

/// How raises are limited.
#[derive(Debug, Clone, Copy, PartialEq, Eq, Structural)]
pub enum BettingStructure {
    FixedLimit,
    PotLimit,
    NoLimit,
}

/// How the first actor of a betting round is chosen.
#[derive(Debug, Clone, Copy, PartialEq, Eq, Structural)]
pub enum Opening {
    Position,
    LowCard,
    HighCard,
    LowHand,
    HighHand,
}

/// A deterministic step the engine may perform on its own.
#[derive(Debug, Clone, Copy, PartialEq, Eq, Structural, Hash)]
pub enum Automation {
    AntePosting,
    BetCollection,
    BlindOrStraddlePosting,
    CardBurning,
    HoleDealing,
    BoardDealing,
    RunoutCountSelection,
    HoleCardsShowingOrMucking,
    HandKilling,
    ChipsPushing,
    ChipsPulling,
}

/// Tournament or cash-game behavior between hands.
#[derive(Debug, Clone, Copy, PartialEq, Eq, Structural)]
pub enum Mode {
    Tournament,
    CashGame,
}

/// Which phase of the hand the machine is in.
#[derive(Debug, Clone, Copy, PartialEq, Eq, Structural)]
pub enum Phase {
    AntePosting,
    BetCollection,
    BlindOrStraddlePosting,
    Dealing,
    Betting,
    Showdown,
    ChipsPushing,
}

/// Why an operation was refused. The state is unchanged whenever one of
/// these is returned.
#[derive(Debug, Clone, Copy, PartialEq, Eq, Structural)]
pub enum StateError {
    /// The acting player (or the phase) does not permit this operation.
    IllegalAction,
    /// Cards were requested from an empty or too-small deck.
    ExhaustedDeck,
    /// A raise amount breaks the betting rules in force.
    IllegalAmount,
}

/// Configuration of one betting round.
#[derive(Debug, Clone)]
pub struct Street {
    pub card_burning_status: bool,
    pub hole_dealing_statuses: Vec<bool>,
    pub board_dealing_count: usize,
    pub draw_status: bool,
    pub opening: Opening,
    pub min_completion_betting_or_raising_amount: i64,
    pub max_completion_betting_or_raising_count: Option<usize>,
}

/// Why a street configuration was refused.
#[derive(Debug, Clone, Copy, PartialEq, Eq, Structural)]
pub enum ConfigError {
    /// A street cannot both deal hole cards and allow drawing.
    HoleDealingAndDrawing,
    /// The minimum bet or raise must be positive.
    NonPositiveMinBet,
    /// Fewer than two players.
    TooFewPlayers,
    /// No streets.
    NoStreets,
    /// An opening rule other than opening by position, which this core does
    /// not administer.
    UnsupportedOpening,
    /// A negative ante or starting stack.
    NegativeValue,
    /// The configured amounts exceed the representable chip total.
    AmountOverflow,
}

impl Street {
    /// A street is well formed when it does not mix hole dealing with
    /// drawing and its minimum bet is positive.
    pub open spec fn wf(self) -> bool {
        &&& !(self.hole_dealing_statuses@.len() > 0 && self.draw_status)
        &&& self.min_completion_betting_or_raising_amount > 0
    }

    /// Builds a street, rejecting one that mixes hole dealing with drawing
    /// or has a non-positive minimum bet.
    pub fn new(
        card_burning_status: bool,
        hole_dealing_statuses: Vec<bool>,
        board_dealing_count: usize,
        draw_status: bool,
        opening: Opening,
        min_completion_betting_or_raising_amount: i64,
        max_completion_betting_or_raising_count: Option<usize>,
    ) -> (r: Result<Street, ConfigError>)
        ensures
            match r {
                Ok(st) => {
                    &&& st.wf()
                    &&& st.card_burning_status == card_burning_status
                    &&& st.hole_dealing_statuses@ == hole_dealing_statuses@
                    &&& st.board_dealing_count == board_dealing_count
                    &&& st.draw_status == draw_status
                    &&& st.opening == opening
                    &&& st.min_completion_betting_or_raising_amount
                        == min_completion_betting_or_raising_amount
                    &&& st.max_completion_betting_or_raising_count
                        == max_completion_betting_or_raising_count
                },
                Err(e) => {
                    &&& (hole_dealing_statuses@.len() > 0 && draw_status)
                        || min_completion_betting_or_raising_amount <= 0
                    &&& e == (if hole_dealing_statuses@.len() > 0 && draw_status {
                        ConfigError::HoleDealingAndDrawing
                    } else {
                        ConfigError::NonPositiveMinBet
                    })
                },
            },
    {
        if hole_dealing_statuses.len() > 0 && draw_status {
            return Err(ConfigError::HoleDealingAndDrawing);
        }
        if min_completion_betting_or_raising_amount <= 0 {
            return Err(ConfigError::NonPositiveMinBet);
        }
        Ok(
            Street {
                card_burning_status,
                hole_dealing_statuses,
                board_dealing_count,
                draw_status,
                opening,
                min_completion_betting_or_raising_amount,
                max_completion_betting_or_raising_count,
            },
        )
    }
}

/// A main or side pot: the raked and unraked parts and the players eligible
/// to win it.
#[derive(Debug, Clone)]
pub struct Pot {
    pub raked_amount: i64,
    pub unraked_amount: i64,
    pub player_indices: Vec<usize>,
}

impl Pot {
    /// The pot's full amount.
    pub fn amount(&self) -> (r: i64)
        requires
            self.raked_amount + self.unraked_amount <= i64::MAX,
            self.raked_amount + self.unraked_amount >= i64::MIN,
        ensures
            r == self.raked_amount + self.unraked_amount,
    {
        self.raked_amount + self.unraked_amount
    }
}

// The operation records: one tagged record per state-mutating action, with
// an optional free-form commentary.
#[derive(Debug, Clone)]
pub struct AntePosting {
    pub player_index: usize,
    pub amount: i64,
    pub commentary: Option<String>,
}

#[derive(Debug, Clone)]
pub struct BetCollection {
    pub bets: Vec<i64>,
    pub commentary: Option<String>,
}

#[derive(Debug, Clone)]
pub struct BlindOrStraddlePosting {
    pub player_index: usize,
    pub amount: i64,
    pub commentary: Option<String>,
}

#[derive(Debug, Clone)]
pub struct CardBurning {
    pub card: Card,
    pub commentary: Option<String>,
}

#[derive(Debug, Clone)]
pub struct HoleDealing {
    pub player_index: usize,
    pub cards: Vec<Card>,
    pub statuses: Vec<bool>,
    pub commentary: Option<String>,
}

#[derive(Debug, Clone)]
pub struct BoardDealing {
    pub cards: Vec<Card>,
    pub commentary: Option<String>,
}

#[derive(Debug, Clone)]
pub struct StandingPatOrDiscarding {
    pub player_index: usize,
    pub cards: Vec<Card>,
    pub commentary: Option<String>,
}

#[derive(Debug, Clone)]
pub struct Folding {
    pub player_index: usize,
    pub commentary: Option<String>,
}

#[derive(Debug, Clone)]
pub struct CheckingOrCalling {
    pub player_index: usize,
    pub amount: i64,
    pub commentary: Option<String>,
}

#[derive(Debug, Clone)]
pub struct BringInPosting {
    pub player_index: usize,
    pub amount: i64,
    pub commentary: Option<String>,
}

#[derive(Debug, Clone)]
pub struct CompletionBettingOrRaisingTo {
    pub player_index: usize,
    pub amount: i64,
    pub commentary: Option<String>,
}

#[derive(Debug, Clone)]
pub struct RunoutCountSelection {
    pub player_index: usize,
    pub runout_count: Option<usize>,
    pub commentary: Option<String>,
}

#[derive(Debug, Clone)]
pub struct HoleCardsShowingOrMucking {
    pub player_index: usize,
    pub hole_cards: Vec<Card>,
    pub commentary: Option<String>,
}

#[derive(Debug, Clone)]
pub struct HandKilling {
    pub player_index: usize,
    pub commentary: Option<String>,
}

#[derive(Debug, Clone)]
pub struct ChipsPushing {
    pub amounts: Vec<i64>,
    pub pot_index: usize,
    pub board_index: Option<usize>,
    pub hand_type_index: Option<usize>,
    pub commentary: Option<String>,
}

#[derive(Debug, Clone)]
pub struct ChipsPulling {
    pub player_index: usize,
    pub amount: i64,
    pub commentary: Option<String>,
}

#[derive(Debug, Clone)]
pub struct NoOperation {
    pub commentary: Option<String>,
}

/// Every state-mutating engine action, as an append-only log record.
#[derive(Debug, Clone)]
pub enum Operation {
    AntePosting(AntePosting),
    BetCollection(BetCollection),
    BlindOrStraddlePosting(BlindOrStraddlePosting),
    CardBurning(CardBurning),
    HoleDealing(HoleDealing),
    BoardDealing(BoardDealing),
    StandingPatOrDiscarding(StandingPatOrDiscarding),
    Folding(Folding),
    CheckingOrCalling(CheckingOrCalling),
    BringInPosting(BringInPosting),
    CompletionBettingOrRaisingTo(CompletionBettingOrRaisingTo),
    RunoutCountSelection(RunoutCountSelection),
    HoleCardsShowingOrMucking(HoleCardsShowingOrMucking),
    HandKilling(HandKilling),
    ChipsPushing(ChipsPushing),
    ChipsPulling(ChipsPulling),
    NoOperation(NoOperation),
}

/// The sum of a chip vector.
pub open spec fn sum_i64(s: Seq<i64>) -> int
    decreases s.len(),
{
    if s.len() == 0 {
        0
    } else {
        s[0] + sum_i64(s.skip(1))
    }
}

/// Updating one element changes the sum by the difference.
pub proof fn lemma_sum_update(s: Seq<i64>, i: int, v: i64)
    requires
        0 <= i < s.len(),
    ensures
        sum_i64(s.update(i, v)) == sum_i64(s) - s[i] + v,
    decreases s.len(),
{
    if i == 0 {
        assert(s.update(0, v).skip(1) =~= s.skip(1));
    } else {
        assert(s.update(i, v).skip(1) =~= s.skip(1).update(i - 1, v));
        lemma_sum_update(s.skip(1), i - 1, v);
    }
}

/// A sum of non-negative values bounds each element.
pub proof fn lemma_sum_bounds_elem(s: Seq<i64>, i: int)
    requires
        0 <= i < s.len(),
        forall|j: int| 0 <= j < s.len() ==> #[trigger] s[j] >= 0,
    ensures
        0 <= s[i] <= sum_i64(s),
        sum_i64(s) >= 0,
    decreases s.len(),
{
    if s.len() > 0 {
        assert(forall|j: int| 0 <= j < s.skip(1).len() ==> s.skip(1)[j] == s[j + 1]);
        if i == 0 {
            lemma_sum_nonneg(s.skip(1));
        } else {
            lemma_sum_bounds_elem(s.skip(1), i - 1);
        }
    }
}

/// A sum of non-negative values is non-negative.
pub proof fn lemma_sum_nonneg(s: Seq<i64>)
    requires
        forall|j: int| 0 <= j < s.len() ==> #[trigger] s[j] >= 0,
    ensures
        sum_i64(s) >= 0,
    decreases s.len(),
{
    if s.len() > 0 {
        assert(forall|j: int| 0 <= j < s.skip(1).len() ==> s.skip(1)[j] == s[j + 1]);
        lemma_sum_nonneg(s.skip(1));
    }
}

/// The authoritative state of one hand of poker.
pub struct State {
    // Configuration, fixed at construction.
    pub automations: Vec<Automation>,
    pub deck: Vec<Card>,
    pub hand_types: Vec<crate::hands::HandType>,
    pub streets: Vec<Street>,
    pub betting_structure: BettingStructure,
    pub ante_trimming_status: bool,
    pub antes: Vec<i64>,
    pub blinds_or_straddles: Vec<i64>,
    pub bring_in: i64,
    pub starting_stacks: Vec<i64>,
    pub player_count: usize,
    pub mode: Mode,
    pub starting_board_count: usize,
    // Dealing state.
    pub deck_cards: std::collections::VecDeque<Card>,
    pub board_cards: Vec<Vec<Card>>,
    pub mucked_cards: Vec<Card>,
    pub burn_cards: Vec<Card>,
    // Per-player state.
    pub statuses: Vec<bool>,
    pub bets: Vec<i64>,
    pub stacks: Vec<i64>,
    pub payoffs: Vec<i64>,
    pub hole_cards: Vec<Vec<Card>>,
    pub hole_card_statuses: Vec<Vec<bool>>,
    pub discarded_cards: Vec<Vec<Card>>,
    pub street_index: Option<usize>,
    pub status: bool,
    pub operations: Vec<Operation>,
    // Phase state.
    pub phase: Phase,
    pub ante_posting_statuses: Vec<bool>,
    pub bet_collection_status: bool,
    pub blind_or_straddle_posting_statuses: Vec<bool>,
    pub card_burning_status: bool,
    pub hole_dealing_statuses: Vec<std::collections::VecDeque<bool>>,
    pub board_dealing_counts: Vec<usize>,
    pub standing_pat_or_discarding_statuses: Vec<bool>,
    pub actor_indices: std::collections::VecDeque<usize>,
    pub opener_index: Option<usize>,
    pub bring_in_status: bool,
    pub completion_status: bool,
    pub completion_betting_or_raising_amount: i64,
    pub completion_betting_or_raising_count: usize,
    pub acted_player_indices: Vec<bool>,
    pub runout_count: Option<usize>,
    pub showdown_indices: std::collections::VecDeque<usize>,
}

impl State {
    /// All per-player vectors have one slot per player, and the board
    /// vectors one slot per board.
    pub open spec fn lengths_ok(self) -> bool {
        &&& self.antes@.len() == self.player_count
        &&& self.blinds_or_straddles@.len() == self.player_count
        &&& self.starting_stacks@.len() == self.player_count
        &&& self.statuses@.len() == self.player_count
        &&& self.bets@.len() == self.player_count
        &&& self.stacks@.len() == self.player_count
        &&& self.payoffs@.len() == self.player_count
        &&& self.hole_cards@.len() == self.player_count
        &&& self.hole_card_statuses@.len() == self.player_count
        &&& self.discarded_cards@.len() == self.player_count
        &&& self.ante_posting_statuses@.len() == self.player_count
        &&& self.blind_or_straddle_posting_statuses@.len() == self.player_count
        &&& self.hole_dealing_statuses@.len() == self.player_count
        &&& self.standing_pat_or_discarding_statuses@.len() == self.player_count
        &&& self.acted_player_indices@.len() == self.player_count
        &&& self.board_cards@.len() == self.starting_board_count
        &&& self.board_dealing_counts@.len() == self.starting_board_count
    }

    /// Chips are in range: no negative stacks, bets, antes, or starting
    /// stacks, and no positive payoffs (a payoff records chips committed).
    pub open spec fn chips_ok(self) -> bool {
        &&& forall|i: int| 0 <= i < self.player_count ==> #[trigger] self.stacks@[i] >= 0
        &&& forall|i: int| 0 <= i < self.player_count ==> #[trigger] self.bets@[i] >= 0
        &&& forall|i: int| 0 <= i < self.player_count ==> #[trigger] self.payoffs@[i] <= 0
        &&& forall|i: int| 0 <= i < self.player_count ==> #[trigger] self.antes@[i] >= 0
        &&& forall|i: int| 0 <= i < self.player_count ==> #[trigger] self.starting_stacks@[i] >= 0
        &&& forall|i: int|
            0 <= i < self.player_count ==> #[trigger] self.blinds_or_straddles@[i] > i64::MIN
    }

    /// Chip conservation: stacks, pending bets, and collected chips always
    /// add up to the starting stacks.
    pub open spec fn conservation_ok(self) -> bool {
        sum_i64(self.stacks@) + sum_i64(self.bets@) - sum_i64(self.payoffs@) == sum_i64(
            self.starting_stacks@,
        )
    }

    /// The actor queue is well formed: every queued index denotes an active
    /// player with chips behind, and no player is queued twice.
    pub open spec fn queue_ok(self) -> bool {
        &&& forall|k: int|
            0 <= k < self.actor_indices@.len() ==> {
                let p = #[trigger] self.actor_indices@[k];
                &&& (p as int) < self.player_count
                &&& self.statuses@[p as int]
                &&& self.stacks@[p as int] > 0
            }
        &&& forall|k1: int, k2: int|
            0 <= k1 < k2 < self.actor_indices@.len() ==> #[trigger] self.actor_indices@[k1]
                != #[trigger] self.actor_indices@[k2]
    }

    /// The state invariant: a valid configuration, consistent vector
    /// lengths, chips in range and conserved, and a well-formed actor
    /// queue, which is empty outside the betting phase.
    pub open spec fn wf(self) -> bool {
        &&& self.player_count >= 2
        &&& self.streets@.len() >= 1
        &&& forall|i: int| 0 <= i < self.streets@.len() ==> (#[trigger] self.streets@[i]).wf()
        &&& self.lengths_ok()
        &&& self.chips_ok()
        &&& self.conservation_ok()
        &&& self.queue_ok()
        &&& (self.phase != Phase::Betting ==> self.actor_indices@.len() == 0)
        &&& (self.street_index matches Option::Some(i) ==> (i as int) < self.streets@.len())
        &&& (self.opener_index matches Option::Some(i) ==> (i as int) < self.player_count)
        &&& sum_i64(self.starting_stacks@) <= i64::MAX
    }

    /// The fixed configuration, unchanged by every action.
    pub open spec fn same_config(self, other: State) -> bool {
        &&& self.automations@ == other.automations@
        &&& self.deck@ == other.deck@
        &&& self.hand_types@ == other.hand_types@
        &&& self.streets@ == other.streets@
        &&& self.betting_structure == other.betting_structure
        &&& self.ante_trimming_status == other.ante_trimming_status
        &&& self.antes@ == other.antes@
        &&& self.blinds_or_straddles@ == other.blinds_or_straddles@
        &&& self.bring_in == other.bring_in
        &&& self.starting_stacks@ == other.starting_stacks@
        &&& self.player_count == other.player_count
        &&& self.mode == other.mode
        &&& self.starting_board_count == other.starting_board_count
        &&& self.status == other.status
    }

    /// Whether an automation is enabled.
    pub open spec fn spec_has_automation(self, a: Automation) -> bool {
        self.automations@.contains(a)
    }

    /// Whether an automation is enabled.
    pub fn has_automation(&self, a: Automation) -> (r: bool)
        ensures
            r == self.spec_has_automation(a),
    {
        let mut i: usize = 0;
        while i < self.automations.len()
            invariant
                0 <= i <= self.automations@.len(),
                forall|j: int| 0 <= j < i ==> self.automations@[j] != a,
            decreases self.automations@.len() - i,
        {
            if self.automations[i] == a {
                return true;
            }
            i = i + 1;
        }
        false
    }

    /// No chip-moving automation is enabled: antes, blinds, and bet
    /// collection wait for explicit calls, so the automation pass that
    /// follows each action leaves the chip state alone.
    pub open spec fn spec_manual_chips(self) -> bool {
        &&& !self.spec_has_automation(Automation::AntePosting)
        &&& !self.spec_has_automation(Automation::BetCollection)
        &&& !self.spec_has_automation(Automation::BlindOrStraddlePosting)
    }

    /// No card-moving automation is enabled: burning and dealing wait for
    /// explicit calls, so the automation pass leaves the cards alone.
    pub open spec fn spec_manual_dealing(self) -> bool {
        &&& !self.spec_has_automation(Automation::CardBurning)
        &&& !self.spec_has_automation(Automation::HoleDealing)
        &&& !self.spec_has_automation(Automation::BoardDealing)
    }

    /// The dealt and undealt cards of the two states agree.
    pub open spec fn same_cards(self, other: State) -> bool {
        &&& self.deck_cards@ == other.deck_cards@
        &&& self.board_cards@ == other.board_cards@
        &&& self.mucked_cards@ == other.mucked_cards@
        &&& self.burn_cards@ == other.burn_cards@
        &&& self.hole_cards@ == other.hole_cards@
        &&& self.hole_card_statuses@ == other.hole_card_statuses@
        &&& self.discarded_cards@ == other.discarded_cards@
    }

    /// The chip state of the two states agrees.
    pub open spec fn same_chips(self, other: State) -> bool {
        &&& self.bets@ == other.bets@
        &&& self.stacks@ == other.stacks@
        &&& self.payoffs@ == other.payoffs@
    }

    /// The betting-round bookkeeping of the two states agrees.
    pub open spec fn same_betting_round(self, other: State) -> bool {
        &&& self.actor_indices@ == other.actor_indices@
        &&& self.opener_index == other.opener_index
        &&& self.acted_player_indices@ == other.acted_player_indices@
        &&& self.completion_betting_or_raising_amount
            == other.completion_betting_or_raising_amount
        &&& self.completion_betting_or_raising_count == other.completion_betting_or_raising_count
    }

    /// The outstanding dealing duties of the two states agree.
    pub open spec fn same_dealing_duties(self, other: State) -> bool {
        &&& self.card_burning_status == other.card_burning_status
        &&& self.hole_dealing_statuses@ == other.hole_dealing_statuses@
        &&& self.board_dealing_counts@ == other.board_dealing_counts@
        &&& self.standing_pat_or_discarding_statuses@
            == other.standing_pat_or_discarding_statuses@
    }

    /// Whether the betting round is finished: every active player has
    /// acted since the last aggression and has either matched the highest
    /// pending bet or is all in.
    pub open spec fn spec_betting_done(self) -> bool {
        forall|i: int|
            0 <= i < self.player_count && #[trigger] self.statuses@[i]
                ==> self.acted_player_indices@[i] && (self.bets@[i] == seq_max0(self.bets@)
                || self.stacks@[i] == 0)
    }

    /// The target a completion, bet, or raise to `amount` would set the
    /// acting player's bet to: under fixed-limit play the standing bet
    /// plus one full raise (capped at the player's chips), otherwise the
    /// requested amount itself.
    pub open spec fn spec_raise_target(self, amount: int) -> int {
        let p = self.actor_indices@[0] as int;
        let maxb = seq_max0(self.bets@);
        let all_in = self.bets@[p] + self.stacks@[p];
        if self.betting_structure == BettingStructure::FixedLimit {
            let minr = self.streets@[self.street_index->Some_0 as int].min_completion_betting_or_raising_amount as int;
            if maxb + minr <= all_in {
                maxb + minr
            } else {
                all_in
            }
        } else {
            amount
        }
    }

    /// Whether a completion, bet, or raise to `amount` is legal now:
    /// someone must be due to act on a street; under fixed-limit play the
    /// raise cap must not be reached; the target must beat the standing
    /// bet, be within the acting player's chips, and either make a full
    /// raise or put the player all in; and under pot-limit play it must
    /// not exceed the pot-sized raise (the chips in the middle plus the
    /// call, on top of the call).
    pub open spec fn spec_raise_legal(self, amount: int) -> bool {
        &&& self.actor_indices@.len() > 0
        &&& self.street_index is Some
        &&& {
            let p = self.actor_indices@[0] as int;
            let maxb = seq_max0(self.bets@);
            let all_in = self.bets@[p] + self.stacks@[p];
            let minr = self.streets@[self.street_index->Some_0 as int].min_completion_betting_or_raising_amount as int;
            let eff = self.spec_raise_target(amount);
            &&& (self.betting_structure == BettingStructure::FixedLimit ==> {
                &&& (match self.streets@[self.street_index->Some_0 as int].max_completion_betting_or_raising_count {
                    Option::Some(maxc) => self.completion_betting_or_raising_count < maxc,
                    Option::None => true,
                })
                &&& maxb + minr <= i64::MAX
            })
            &&& eff > maxb
            &&& eff <= all_in
            &&& (eff - maxb >= minr || eff == all_in)
            &&& (self.betting_structure == BettingStructure::PotLimit ==> {
                let middle = sum_i64(self.bets@) - sum_i64(self.payoffs@);
                middle + maxb <= i64::MAX ==> eff - self.bets@[p] <= middle + (maxb
                    - self.bets@[p])
            })
        }
    }

    /// The state rests: no enabled automation can fire, and the hand
    /// awaits a player decision or an explicit call, or is over.
    pub open spec fn at_rest(self) -> bool {
        match self.phase {
            Phase::AntePosting => (exists|i: int|
                0 <= i < self.player_count && #[trigger] self.ante_posting_statuses@[i])
                && !self.spec_has_automation(Automation::AntePosting),
            Phase::BetCollection => self.bet_collection_status && !self.spec_has_automation(
                Automation::BetCollection,
            ),
            Phase::BlindOrStraddlePosting => (exists|i: int|
                0 <= i < self.player_count
                    && #[trigger] self.blind_or_straddle_posting_statuses@[i])
                && !self.spec_has_automation(Automation::BlindOrStraddlePosting),
            Phase::Dealing => if self.card_burning_status {
                !self.spec_has_automation(Automation::CardBurning) || self.deck_cards@.len() == 0
            } else if exists|i: int|
                0 <= i < self.player_count && (#[trigger] self.hole_dealing_statuses@[i])@.len()
                    > 0 {
                !self.spec_has_automation(Automation::HoleDealing) || self.deck_cards@.len() == 0
            } else if exists|b: int|
                0 <= b < self.starting_board_count && #[trigger] self.board_dealing_counts@[b]
                    > 0 {
                exists|b: int|
                    0 <= b < self.starting_board_count && #[trigger] self.board_dealing_counts@[b]
                        > 0 && (!self.spec_has_automation(Automation::BoardDealing)
                        || self.deck_cards@.len() < self.board_dealing_counts@[b])
            } else {
                exists|i: int|
                    0 <= i < self.player_count
                        && #[trigger] self.standing_pat_or_discarding_statuses@[i]
            },
            Phase::Betting => count_true(self.statuses@) >= 2 && !self.spec_betting_done(),
            Phase::Showdown => true,
            Phase::ChipsPushing => true,
        }
    }

    /// The per-player total contributions: collected chips plus the
    /// pending bet.
    pub open spec fn spec_contribs(self) -> Seq<i64> {
        Seq::new(self.player_count as nat, |j: int| (self.bets@[j] - self.payoffs@[j]) as i64)
    }

    /// The ante portion of a player's contribution: with trimming
    /// enabled, the part of it covered by the player's effective ante;
    /// otherwise zero.
    pub open spec fn spec_ante_portion(self, j: int) -> int {
        if self.ante_trimming_status {
            let c = self.bets@[j] - self.payoffs@[j];
            if c <= self.spec_effective_ante(j) {
                c
            } else {
                self.spec_effective_ante(j)
            }
        } else {
            0
        }
    }

    /// The side-pot base of each contribution: what is left of it after
    /// its ante portion is set aside for the main pot.
    pub open spec fn spec_pot_base(self) -> Seq<i64> {
        Seq::new(
            self.player_count as nat,
            |j: int| (self.bets@[j] - self.payoffs@[j] - self.spec_ante_portion(j)) as i64,
        )
    }

    /// The pooled antes: every contribution's ante portion, owed to the
    /// main pot alone.
    pub open spec fn spec_ante_pool(self) -> int {
        sum_i64(Seq::new(self.player_count as nat, |j: int| self.spec_ante_portion(j) as i64))
    }

    /// The pot list `ps` is the side-pot decomposition of this state at
    /// the levels `lvls`: one pot per distinct positive level of the
    /// side-pot bases, ascending; each pot holds the chips every base
    /// pays between the previous level and its own, the main pot also the
    /// pooled antes; the main pot is contested by every active player who
    /// contributed, the later ones exactly by the active players whose
    /// base reaches the level, in ascending seat order. Without a single
    /// positive base, the pooled antes alone form the main pot.
    pub open spec fn spec_pots_at_levels(self, ps: Seq<Pot>, lvls: Seq<int>) -> bool {
        let c = self.spec_contribs();
        let d = self.spec_pot_base();
        let a = self.spec_ante_pool();
        let n = self.player_count as int;
        &&& (forall|k: int| 0 <= k < lvls.len() ==> #[trigger] lvls[k] > 0)
        &&& (forall|k1: int, k2: int|
            0 <= k1 < k2 < lvls.len() ==> #[trigger] lvls[k1] < #[trigger] lvls[k2])
        &&& (forall|k: int|
            0 <= k < lvls.len() ==> exists|j: int| 0 <= j < n && d[j] == #[trigger] lvls[k])
        &&& (forall|j: int| 0 <= j < n && #[trigger] d[j] > 0 ==> lvls.contains(d[j] as int))
        &&& (forall|k: int| 0 <= k < ps.len() ==> (#[trigger] ps[k]).raked_amount == 0)
        &&& (forall|k: int, m1: int, m2: int|
            0 <= k < ps.len() && 0 <= m1 < m2 < (#[trigger] ps[k]).player_indices@.len()
                ==> #[trigger] ps[k].player_indices@[m1] < #[trigger] ps[k].player_indices@[m2])
        &&& (forall|k: int, q: int|
            0 <= k < ps.len() && 0 <= q < n ==> ((#[trigger] ps[k].player_indices@.contains(
                q as usize,
            )) <==> (self.statuses@[q] && (if k == 0 {
                c[q] > 0
            } else {
                d[q] >= lvls[k]
            }))))
        &&& if lvls.len() == 0 {
            &&& (if a > 0 {
                ps.len() == 1 && ps[0].unraked_amount == a
            } else {
                ps.len() == 0
            })
        } else {
            &&& lvls.len() == ps.len()
            &&& (forall|k: int|
                0 <= k < ps.len() ==> (#[trigger] ps[k]).unraked_amount == sum_cap(d, lvls[k])
                    - sum_cap(
                    d,
                    if k == 0 {
                        0int
                    } else {
                        lvls[k - 1]
                    },
                ) + (if k == 0 {
                    a
                } else {
                    0int
                }))
        }
    }

    /// The seats in `[lo, hi)` that hold an active player with chips
    /// behind, in ascending order.
    pub open spec fn spec_live_range(self, lo: int, hi: int) -> Seq<usize>
        decreases hi - lo,
    {
        if lo >= hi {
            Seq::empty()
        } else {
            let rest = self.spec_live_range(lo, hi - 1);
            if self.statuses@[hi - 1] && self.stacks@[hi - 1] > 0 {
                rest.push((hi - 1) as usize)
            } else {
                rest
            }
        }
    }

    /// Whether `bb` is the seat that posted the largest pending bet, the
    /// later seat winning ties.
    pub open spec fn spec_posted_max(self, bb: int) -> bool {
        &&& 0 <= bb < self.player_count
        &&& forall|j: int| 0 <= j < self.player_count ==> #[trigger] self.bets@[j] <= self.bets@[bb]
        &&& forall|j: int| bb < j < self.player_count ==> #[trigger] self.bets@[j] < self.bets@[bb]
    }

    /// Whether the betting round about to open is the first one of the
    /// hand (the opener is then derived from the posted blinds).
    pub open spec fn spec_preflop(self) -> bool {
        match self.street_index {
            Option::Some(i) => i == 0,
            Option::None => true,
        }
    }

    /// The opener rule of position-opened games: `o` opens when, before
    /// the first street, it is the first active seat after the seat that
    /// posted the largest pending bet, wrapping and skipping eliminated
    /// seats (and the seat after the poster when every seat is out); on
    /// later streets, when it is the lowest-index active seat (seat zero
    /// when every seat is out).
    pub open spec fn spec_opener_at(self, o: int) -> bool {
        let n = self.player_count as int;
        if self.spec_preflop() {
            exists|bb: int|
                #[trigger] self.spec_posted_max(bb) && {
                    let start = cyc(n, bb + 1);
                    ||| (exists|d: int|
                        0 <= d < n && o == #[trigger] cyc(n, start + d) && self.statuses@[o]
                            && forall|e: int|
                            0 <= e < d ==> !self.statuses@[#[trigger] cyc(n, start + e)])
                    ||| ((forall|e: int|
                        0 <= e < n ==> !self.statuses@[#[trigger] cyc(n, start + e)]) && o
                        == start)
                }
        } else {
            if exists|i: int| 0 <= i < n && #[trigger] self.statuses@[i] {
                0 <= o < n && self.statuses@[o] && forall|j: int|
                    0 <= j < o ==> !(#[trigger] self.statuses@[j])
            } else {
                o == 0
            }
        }
    }
}

/// One step around a table of `n` seats: `k` itself below `n`, else `k`
/// brought back by one lap (for `k` below `2n`).
pub open spec fn cyc(n: int, k: int) -> int {
    if k < n {
        k
    } else {
        k - n
    }
}

/// The largest value of a chip vector, at least zero.
pub open spec fn seq_max0(s: Seq<i64>) -> int
    decreases s.len(),
{
    if s.len() == 0 {
        0
    } else {
        let m = seq_max0(s.drop_last());
        if s.last() > m {
            s.last() as int
        } else {
            m
        }
    }
}

/// How many flags of a vector are set.
pub open spec fn count_true(s: Seq<bool>) -> int
    decreases s.len(),
{
    if s.len() == 0 {
        0
    } else {
        (if s.last() {
            1int
        } else {
            0int
        }) + count_true(s.drop_last())
    }
}

/// A flag count is never negative.
pub proof fn lemma_count_true_nonneg(s: Seq<bool>)
    ensures
        count_true(s) >= 0,
    decreases s.len(),
{
    if s.len() > 0 {
        lemma_count_true_nonneg(s.drop_last());
    }
}

/// A vector of set flags counts its whole length.
pub proof fn lemma_count_true_all(s: Seq<bool>)
    requires
        forall|i: int| 0 <= i < s.len() ==> #[trigger] s[i],
    ensures
        count_true(s) == s.len(),
    decreases s.len(),
{
    if s.len() > 0 {
        lemma_count_true_all(s.drop_last());
    }
}

/// Clearing one set flag lowers the count by one.
pub proof fn lemma_count_true_clear(s: Seq<bool>, i: int)
    requires
        0 <= i < s.len(),
        s[i],
    ensures
        count_true(s.update(i, false)) == count_true(s) - 1,
    decreases s.len(),
{
    let t = s.update(i, false);
    if i == s.len() - 1 {
        assert(t.drop_last() =~= s.drop_last());
    } else {
        assert(t.drop_last() =~= s.drop_last().update(i, false));
        lemma_count_true_clear(s.drop_last(), i);
    }
}

/// The total of the outstanding per-player hole cards.
pub open spec fn sum_deal_lens(s: Seq<std::collections::VecDeque<bool>>) -> int
    decreases s.len(),
{
    if s.len() == 0 {
        0
    } else {
        s.last()@.len() + sum_deal_lens(s.drop_last())
    }
}

pub proof fn lemma_sum_deal_lens_nonneg(s: Seq<std::collections::VecDeque<bool>>)
    ensures
        sum_deal_lens(s) >= 0,
    decreases s.len(),
{
    if s.len() > 0 {
        lemma_sum_deal_lens_nonneg(s.drop_last());
    }
}

/// Shortening one queue by one card lowers the total by one.
pub proof fn lemma_sum_deal_lens_shorten(
    a: Seq<std::collections::VecDeque<bool>>,
    b: Seq<std::collections::VecDeque<bool>>,
    i: int,
)
    requires
        a.len() == b.len(),
        0 <= i < a.len(),
        b[i]@.len() == a[i]@.len() - 1,
        forall|j: int| 0 <= j < a.len() && j != i ==> (#[trigger] b[j])@ == a[j]@,
    ensures
        sum_deal_lens(b) == sum_deal_lens(a) - 1,
    decreases a.len(),
{
    if i == a.len() - 1 {
        lemma_sum_deal_lens_congruent(a.drop_last(), b.drop_last());
    } else {
        assert(b.last()@ == a.last()@);
        lemma_sum_deal_lens_shorten(a.drop_last(), b.drop_last(), i);
    }
}

/// Queues with pointwise-equal contents have equal totals.
pub proof fn lemma_sum_deal_lens_congruent(
    a: Seq<std::collections::VecDeque<bool>>,
    b: Seq<std::collections::VecDeque<bool>>,
)
    requires
        a.len() == b.len(),
        forall|j: int| 0 <= j < a.len() ==> (#[trigger] b[j])@ == a[j]@,
    ensures
        sum_deal_lens(b) == sum_deal_lens(a),
    decreases a.len(),
{
    if a.len() > 0 {
        lemma_sum_deal_lens_congruent(a.drop_last(), b.drop_last());
    }
}

/// The total of the outstanding board cards.
pub open spec fn sum_usize(s: Seq<usize>) -> int
    decreases s.len(),
{
    if s.len() == 0 {
        0
    } else {
        s.last() + sum_usize(s.drop_last())
    }
}

pub proof fn lemma_sum_usize_nonneg(s: Seq<usize>)
    ensures
        sum_usize(s) >= 0,
    decreases s.len(),
{
    if s.len() > 0 {
        lemma_sum_usize_nonneg(s.drop_last());
    }
}

/// Lowering one count lowers the total accordingly.
pub proof fn lemma_sum_usize_update(s: Seq<usize>, i: int, v: usize)
    requires
        0 <= i < s.len(),
    ensures
        sum_usize(s.update(i, v)) == sum_usize(s) - s[i] + v,
    decreases s.len(),
{
    let t = s.update(i, v);
    if i == s.len() - 1 {
        assert(t.drop_last() =~= s.drop_last());
    } else {
        assert(t.drop_last() =~= s.drop_last().update(i, v));
        lemma_sum_usize_update(s.drop_last(), i, v);
    }
}

impl State {
    /// How far the hand still has to go through its streets: one unit per
    /// street not yet entered, plus one before the first.
    pub open spec fn spec_street_units(self) -> int {
        let consumed: int = match self.street_index {
            Option::None => 0,
            Option::Some(i) => i + 1,
        };
        if consumed > self.streets@.len() {
            0
        } else {
            self.streets@.len() + 1 - consumed
        }
    }

    /// The rank of a phase within one pass over a street: every automated
    /// transition lowers the rank or consumes a street unit.
    pub open spec fn spec_phase_rank(self) -> int {
        match self.phase {
            Phase::AntePosting => 5,
            Phase::Dealing => 4,
            Phase::Betting => 3,
            Phase::BetCollection => 2,
            Phase::BlindOrStraddlePosting => 1,
            Phase::Showdown => 0,
            Phase::ChipsPushing => 0,
        }
    }

    /// How much work the current phase still owes: every automated step
    /// within a phase lowers it.
    pub open spec fn spec_phase_pending(self) -> int {
        match self.phase {
            Phase::AntePosting => count_true(self.ante_posting_statuses@),
            Phase::BetCollection => if self.bet_collection_status {
                1int
            } else {
                0int
            },
            Phase::BlindOrStraddlePosting => count_true(self.blind_or_straddle_posting_statuses@),
            Phase::Dealing => (if self.card_burning_status {
                1int
            } else {
                0int
            }) + sum_deal_lens(self.hole_dealing_statuses@) + sum_usize(
                self.board_dealing_counts@,
            ),
            Phase::Betting => 0,
            Phase::Showdown => 0,
            Phase::ChipsPushing => 0,
        }
    }
}

/// States with the same statuses and stacks build the same live ranges.
proof fn lemma_live_range_congruent(a: State, b: State, lo: int, hi: int)
    requires
        a.statuses@ == b.statuses@,
        a.stacks@ == b.stacks@,
    ensures
        a.spec_live_range(lo, hi) == b.spec_live_range(lo, hi),
    decreases hi - lo,
{
    if lo < hi {
        lemma_live_range_congruent(a, b, lo, hi - 1);
    }
}


/// A vector of `n` copies of one value.
fn filled_i64(n: usize, v: i64) -> (r: Vec<i64>)
    ensures
        r@.len() == n,
        forall|i: int| 0 <= i < n ==> #[trigger] r@[i] == v,
{
    let mut r: Vec<i64> = Vec::new();
    while r.len() < n
        invariant
            r@.len() <= n,
            forall|i: int| 0 <= i < r@.len() ==> #[trigger] r@[i] == v,
        decreases n - r@.len(),
    {
        r.push(v);
    }
    r
}

fn filled_bool(n: usize, v: bool) -> (r: Vec<bool>)
    ensures
        r@.len() == n,
        forall|i: int| 0 <= i < n ==> #[trigger] r@[i] == v,
{
    let mut r: Vec<bool> = Vec::new();
    while r.len() < n
        invariant
            r@.len() <= n,
            forall|i: int| 0 <= i < r@.len() ==> #[trigger] r@[i] == v,
        decreases n - r@.len(),
    {
        r.push(v);
    }
    r
}

fn filled_usize(n: usize, v: usize) -> (r: Vec<usize>)
    ensures
        r@.len() == n,
        forall|i: int| 0 <= i < n ==> #[trigger] r@[i] == v,
{
    let mut r: Vec<usize> = Vec::new();
    while r.len() < n
        invariant
            r@.len() <= n,
            forall|i: int| 0 <= i < r@.len() ==> #[trigger] r@[i] == v,
        decreases n - r@.len(),
    {
        r.push(v);
    }
    r
}

fn empty_card_vecs(n: usize) -> (r: Vec<Vec<Card>>)
    ensures
        r@.len() == n,
        forall|i: int| 0 <= i < n ==> (#[trigger] r@[i])@.len() == 0,
{
    let mut r: Vec<Vec<Card>> = Vec::new();
    while r.len() < n
        invariant
            r@.len() <= n,
            forall|i: int| 0 <= i < r@.len() ==> (#[trigger] r@[i])@.len() == 0,
        decreases n - r@.len(),
    {
        r.push(Vec::new());
    }
    r
}

fn empty_bool_vecs(n: usize) -> (r: Vec<Vec<bool>>)
    ensures
        r@.len() == n,
        forall|i: int| 0 <= i < n ==> (#[trigger] r@[i])@.len() == 0,
{
    let mut r: Vec<Vec<bool>> = Vec::new();
    while r.len() < n
        invariant
            r@.len() <= n,
            forall|i: int| 0 <= i < r@.len() ==> (#[trigger] r@[i])@.len() == 0,
        decreases n - r@.len(),
    {
        r.push(Vec::new());
    }
    r
}

fn empty_bool_deques(n: usize) -> (r: Vec<std::collections::VecDeque<bool>>)
    ensures
        r@.len() == n,
        forall|i: int| 0 <= i < n ==> (#[trigger] r@[i])@.len() == 0,
{
    let mut r: Vec<std::collections::VecDeque<bool>> = Vec::new();
    while r.len() < n
        invariant
            r@.len() <= n,
            forall|i: int| 0 <= i < r@.len() ==> (#[trigger] r@[i])@.len() == 0,
        decreases n - r@.len(),
    {
        r.push(std::collections::VecDeque::new());
    }
    r
}

/// The position of the first set flag, if any.
fn first_true(v: &Vec<bool>) -> (r: Option<usize>)
    ensures
        match r {
            Option::Some(i) => (i as int) < v@.len() && v@[i as int] && forall|j: int|
                0 <= j < i ==> !(#[trigger] v@[j]),
            Option::None => forall|j: int| 0 <= j < v@.len() ==> !(#[trigger] v@[j]),
        },
{
    let mut i: usize = 0;
    while i < v.len()
        invariant
            0 <= i <= v@.len(),
            forall|j: int| 0 <= j < i ==> !(#[trigger] v@[j]),
        decreases v@.len() - i,
    {
        if v[i] {
            return Option::Some(i);
        }
        i = i + 1;
    }
    Option::None
}

/// A sum of zeros is zero.
proof fn lemma_sum_of_filled_zero(s: Seq<i64>)
    requires
        forall|i: int| 0 <= i < s.len() ==> #[trigger] s[i] == 0i64,
    ensures
        sum_i64(s) == 0,
    decreases s.len(),
{
    if s.len() > 0 {
        assert(forall|j: int| 0 <= j < s.skip(1).len() ==> s.skip(1)[j] == s[j + 1]);
        lemma_sum_of_filled_zero(s.skip(1));
    }
}

/// Builds one hand's state in a single validated step.
pub struct StateBuilder {
    pub automations: Vec<Automation>,
    pub deck: Vec<Card>,
    pub hand_types: Vec<crate::hands::HandType>,
    pub streets: Vec<Street>,
    pub betting_structure: BettingStructure,
    pub ante_trimming_status: bool,
    pub raw_antes: std::collections::BTreeMap<usize, i64>,
    pub raw_blinds_or_straddles: std::collections::BTreeMap<usize, i64>,
    pub bring_in: i64,
    pub raw_starting_stacks: std::collections::BTreeMap<usize, i64>,
    pub player_count: usize,
    pub mode: Mode,
    pub starting_board_count: usize,
}

impl StateBuilder {
    /// A builder with the conventional defaults: the standard deck, the
    /// standard high hand, no-limit betting, tournament mode, one board.
    pub fn new(player_count: usize) -> (r: StateBuilder)
        ensures
            r.player_count == player_count,
            r.automations@.len() == 0,
            r.deck@ == crate::utilities::deck_of(crate::utilities::RankOrder::standard_spec()),
            r.hand_types@ == seq![crate::hands::HandType::StandardHighHand],
            r.streets@.len() == 0,
            r.betting_structure == BettingStructure::NoLimit,
            r.ante_trimming_status == false,
            r.raw_antes@ == Map::<usize, i64>::empty(),
            r.raw_blinds_or_straddles@ == Map::<usize, i64>::empty(),
            r.bring_in == 0,
            r.raw_starting_stacks@ == Map::<usize, i64>::empty(),
            r.mode == Mode::Tournament,
            r.starting_board_count == 1,
    {
        broadcast use vstd::std_specs::btree::group_btree_axioms;

        let hand_types = vec![crate::hands::HandType::StandardHighHand];
        proof {
            assert(hand_types@ =~= seq![crate::hands::HandType::StandardHighHand]);
        }
        StateBuilder {
            automations: Vec::new(),
            deck: crate::utilities::Deck::standard(),
            hand_types,
            streets: Vec::new(),
            betting_structure: BettingStructure::NoLimit,
            ante_trimming_status: false,
            raw_antes: std::collections::BTreeMap::new(),
            raw_blinds_or_straddles: std::collections::BTreeMap::new(),
            bring_in: 0,
            raw_starting_stacks: std::collections::BTreeMap::new(),
            player_count,
            mode: Mode::Tournament,
            starting_board_count: 1,
        }
    }

    /// Chooses the enabled automations.
    pub fn automations(self, automations: Vec<Automation>) -> (r: StateBuilder)
        ensures
            r == (StateBuilder { automations, ..self }),
    {
        StateBuilder { automations, ..self }
    }

    /// Chooses the deck.
    pub fn deck(self, deck: Vec<Card>) -> (r: StateBuilder)
        ensures
            r == (StateBuilder { deck, ..self }),
    {
        StateBuilder { deck, ..self }
    }

    /// Chooses the hand types evaluated at showdown.
    pub fn hand_types(self, hand_types: Vec<crate::hands::HandType>) -> (r: StateBuilder)
        ensures
            r == (StateBuilder { hand_types, ..self }),
    {
        StateBuilder { hand_types, ..self }
    }

    /// Chooses the streets.
    pub fn streets(self, streets: Vec<Street>) -> (r: StateBuilder)
        ensures
            r == (StateBuilder { streets, ..self }),
    {
        StateBuilder { streets, ..self }
    }

    /// Chooses the betting structure.
    pub fn betting_structure(self, betting_structure: BettingStructure) -> (r: StateBuilder)
        ensures
            r == (StateBuilder { betting_structure, ..self }),
    {
        StateBuilder { betting_structure, ..self }
    }

    /// Chooses whether antes are trimmed out of side pots.
    pub fn ante_trimming_status(self, ante_trimming_status: bool) -> (r: StateBuilder)
        ensures
            r == (StateBuilder { ante_trimming_status, ..self }),
    {
        StateBuilder { ante_trimming_status, ..self }
    }

    /// Chooses the antes, keyed by player index.
    pub fn raw_antes(self, raw_antes: std::collections::BTreeMap<usize, i64>) -> (r: StateBuilder)
        ensures
            r == (StateBuilder { raw_antes, ..self }),
    {
        StateBuilder { raw_antes, ..self }
    }

    /// Chooses the blinds or straddles, keyed by player index.
    pub fn raw_blinds_or_straddles(
        self,
        raw_blinds_or_straddles: std::collections::BTreeMap<usize, i64>,
    ) -> (r: StateBuilder)
        ensures
            r == (StateBuilder { raw_blinds_or_straddles, ..self }),
    {
        StateBuilder { raw_blinds_or_straddles, ..self }
    }

    /// Chooses the bring-in.
    pub fn bring_in(self, bring_in: i64) -> (r: StateBuilder)
        ensures
            r == (StateBuilder { bring_in, ..self }),
    {
        StateBuilder { bring_in, ..self }
    }

    /// Chooses the starting stacks, keyed by player index.
    pub fn raw_starting_stacks(
        self,
        raw_starting_stacks: std::collections::BTreeMap<usize, i64>,
    ) -> (r: StateBuilder)
        ensures
            r == (StateBuilder { raw_starting_stacks, ..self }),
    {
        StateBuilder { raw_starting_stacks, ..self }
    }

    /// Chooses tournament or cash-game mode.
    pub fn mode(self, mode: Mode) -> (r: StateBuilder)
        ensures
            r == (StateBuilder { mode, ..self }),
    {
        StateBuilder { mode, ..self }
    }

    /// Validates the configuration and builds the initial state: the deck
    /// is shuffled, the derived per-player state is seeded, and the first
    /// automation pass runs so that the returned state rests at its first
    /// decision point.
    pub fn build(self) -> (r: Result<State, ConfigError>)
        ensures
            match r {
                Ok(st) => {
                    &&& st.wf()
                    &&& st.player_count == self.player_count
                    &&& st.streets@ == self.streets@
                    &&& st.betting_structure == self.betting_structure
                    &&& st.mode == self.mode
                    &&& st.ante_trimming_status == self.ante_trimming_status
                    &&& st.bring_in == self.bring_in
                    &&& st.automations@ == self.automations@
                    &&& st.hand_types@ == self.hand_types@
                    &&& st.starting_board_count == 1
                    &&& st.starting_stacks@.len() == self.player_count
                    &&& forall|i: int|
                        0 <= i < self.player_count ==> #[trigger] st.starting_stacks@[i] == (
                        if self.raw_starting_stacks@.contains_key(i as usize) {
                            self.raw_starting_stacks@[i as usize]
                        } else {
                            0i64
                        })
                    &&& st.status
                    &&& st.deck@ == self.deck@
                    &&& (forall|i: int|
                        0 <= i < self.player_count ==> #[trigger] st.statuses@[i])
                    &&& st.at_rest()
                    &&& (st.spec_manual_chips() ==> {
                        &&& st.stacks@ == st.starting_stacks@
                        &&& (forall|i: int|
                            0 <= i < self.player_count ==> #[trigger] st.bets@[i] == 0i64)
                        &&& (forall|i: int|
                            0 <= i < self.player_count ==> #[trigger] st.payoffs@[i] == 0i64)
                    })
                    &&& (st.spec_manual_dealing() ==> st.deck_cards@.to_multiset()
                        == self.deck@.to_multiset())
                    &&& (st.spec_manual_chips() && st.spec_manual_dealing()
                        ==> st.operations@.len() == 0)
                    &&& st.antes@.len() == self.player_count
                    &&& (forall|i: int|
                        0 <= i < self.player_count ==> #[trigger] st.antes@[i] == self.clean_ante(
                            i,
                        ))
                    &&& st.blinds_or_straddles@.len() == self.player_count
                    &&& (forall|i: int|
                        0 <= i < self.player_count ==> #[trigger] st.blinds_or_straddles@[i]
                            == self.clean_blind(i))
                    &&& ((st.spec_manual_chips() && exists|i: int|
                        0 <= i < self.player_count && (st.spec_effective_ante(i) > 0
                            || st.spec_effective_blind(i) > 0)) ==> st.street_index is None)
                },
                Err(_) => true,
            },
            r is Err ==> (self.player_count < 2 || self.streets@.len() == 0 || (exists|i: int|
                0 <= i < self.streets@.len() && (!(#[trigger] self.streets@[i]).wf()
                    || self.streets@[i].opening != Opening::Position)) || (exists|i: int|
                0 <= i < self.player_count && (#[trigger] self.clean_ante(i) < 0
                    || self.clean_stack(i) < 0 || self.clean_blind(i) == i64::MIN)) || sum_i64(
                self.clean_stacks_seq(),
            )
                > i64::MAX),
            r matches Err(e) && e == ConfigError::TooFewPlayers ==> self.player_count < 2,
    {
        broadcast use vstd::std_specs::btree::group_btree_axioms;

        if self.player_count < 2 {
            return Err(ConfigError::TooFewPlayers);
        }
        if self.streets.len() == 0 {
            return Err(ConfigError::NoStreets);
        }
        let mut si: usize = 0;
        while si < self.streets.len()
            invariant
                0 <= si <= self.streets@.len(),
                forall|i: int|
                    0 <= i < si ==> (#[trigger] self.streets@[i]).wf() && self.streets@[i].opening
                        == Opening::Position,
            decreases self.streets@.len() - si,
        {
            let stref = &self.streets[si];
            if stref.hole_dealing_statuses.len() > 0 && stref.draw_status {
                return Err(ConfigError::HoleDealingAndDrawing);
            }
            if stref.min_completion_betting_or_raising_amount <= 0 {
                return Err(ConfigError::NonPositiveMinBet);
            }
            if !matches!(stref.opening, Opening::Position) {
                return Err(ConfigError::UnsupportedOpening);
            }
            si = si + 1;
        }
        let antes = crate::utilities::clean_values(&self.raw_antes, self.player_count);
        let blinds_or_straddles = crate::utilities::clean_values(
            &self.raw_blinds_or_straddles,
            self.player_count,
        );
        let starting_stacks = crate::utilities::clean_values(
            &self.raw_starting_stacks,
            self.player_count,
        );
        // Validate the amounts, then total the stacks.
        proof {
            assert forall|i: int| 0 <= i < self.player_count implies #[trigger] antes@[i]
                == self.clean_ante(i) by {}
            assert forall|i: int| 0 <= i < self.player_count implies #[trigger] starting_stacks@[i]
                == self.clean_stack(i) by {}
            assert forall|i: int|
                0 <= i < self.player_count implies #[trigger] blinds_or_straddles@[i]
                == self.clean_blind(i) by {}
        }
        let mut pi: usize = 0;
        while pi < self.player_count
            invariant
                0 <= pi <= self.player_count,
                antes@.len() == self.player_count,
                blinds_or_straddles@.len() == self.player_count,
                starting_stacks@.len() == self.player_count,
                forall|i: int| 0 <= i < pi ==> #[trigger] antes@[i] >= 0,
                forall|i: int| 0 <= i < pi ==> #[trigger] starting_stacks@[i] >= 0,
                forall|i: int| 0 <= i < pi ==> #[trigger] blinds_or_straddles@[i] > i64::MIN,
                forall|i: int| 0 <= i < self.player_count ==> #[trigger] antes@[i]
                    == self.clean_ante(i),
                forall|i: int| 0 <= i < self.player_count ==> #[trigger] starting_stacks@[i]
                    == self.clean_stack(i),
                forall|i: int|
                    0 <= i < self.player_count ==> #[trigger] blinds_or_straddles@[i]
                        == self.clean_blind(i),
            decreases self.player_count - pi,
        {
            if antes[pi] < 0 || starting_stacks[pi] < 0 {
                proof {
                    let wi: int = pi as int;
                    assert(antes@[wi] == self.clean_ante(wi));
                    assert(starting_stacks@[wi] == self.clean_stack(wi));
                    assert(self.clean_ante(wi) < 0 || self.clean_stack(wi) < 0);
                    assert(0 <= wi && wi < self.player_count);
                    assert(exists|i: int|
                        0 <= i < self.player_count && (#[trigger] self.clean_ante(i) < 0
                            || self.clean_stack(i) < 0 || self.clean_blind(i) == i64::MIN));
                }
                return Err(ConfigError::NegativeValue);
            }
            if blinds_or_straddles[pi] == i64::MIN {
                proof {
                    assert(self.clean_blind(pi as int) == i64::MIN);
                }
                return Err(ConfigError::AmountOverflow);
            }
            pi = pi + 1;
        }
        let ghost pre_antes = antes@;
        let ghost pre_blinds = blinds_or_straddles@;
        let mut total: i64 = 0;
        let mut ti: usize = 0;
        proof {
            assert(starting_stacks@.take(0) =~= Seq::<i64>::empty());
        }
        while ti < self.player_count
            invariant
                0 <= ti <= self.player_count,
                starting_stacks@.len() == self.player_count,
                forall|i: int| 0 <= i < self.player_count ==> #[trigger] starting_stacks@[i] >= 0,
                forall|i: int|
                    0 <= i < self.player_count ==> #[trigger] starting_stacks@[i]
                        == self.clean_stack(i),
                total as int == sum_i64(starting_stacks@.take(ti as int)),
                total >= 0,
            decreases self.player_count - ti,
        {
            let stack = starting_stacks[ti];
            proof {
                lemma_sum_take_push(starting_stacks@, ti as int);
            }
            if total > i64::MAX - stack {
                proof {
                    lemma_sum_take_monotone(starting_stacks@, ti as int + 1);
                    assert(starting_stacks@ =~= self.clean_stacks_seq());
                }
                return Err(ConfigError::AmountOverflow);
            }
            total = total + stack;
            ti = ti + 1;
        }
        proof {
            assert(starting_stacks@.take(self.player_count as int) =~= starting_stacks@);
        }
        let n = self.player_count;
        let shuffled_deck = crate::utilities::shuffled(&self.deck);
        let mut deck_cards: std::collections::VecDeque<Card> = std::collections::VecDeque::new();
        let mut di: usize = 0;
        proof {
            assert(deck_cards@ =~= shuffled_deck@.take(0));
        }
        while di < shuffled_deck.len()
            invariant
                0 <= di <= shuffled_deck@.len(),
                deck_cards@.len() == di,
                deck_cards@ == shuffled_deck@.take(di as int),
            decreases shuffled_deck@.len() - di,
        {
            deck_cards.push_back(shuffled_deck[di]);
            proof {
                assert(deck_cards@ =~= shuffled_deck@.take(di as int + 1));
            }
            di = di + 1;
        }
        proof {
            assert(deck_cards@ =~= shuffled_deck@);
        }
        let stacks = starting_stacks.clone();
        proof {
            assert(stacks@ =~= starting_stacks@);
        }
        let bets = filled_i64(n, 0);
        let payoffs = filled_i64(n, 0);
        let mut st = State {
            automations: self.automations,
            deck: self.deck,
            hand_types: self.hand_types,
            streets: self.streets,
            betting_structure: self.betting_structure,
            ante_trimming_status: self.ante_trimming_status,
            antes,
            blinds_or_straddles,
            bring_in: self.bring_in,
            starting_stacks,
            player_count: n,
            mode: self.mode,
            starting_board_count: 1,
            deck_cards,
            board_cards: empty_card_vecs(1),
            mucked_cards: Vec::new(),
            burn_cards: Vec::new(),
            statuses: filled_bool(n, true),
            bets,
            stacks,
            payoffs,
            hole_cards: empty_card_vecs(n),
            hole_card_statuses: empty_bool_vecs(n),
            discarded_cards: empty_card_vecs(n),
            street_index: Option::None,
            status: true,
            operations: Vec::new(),
            phase: Phase::AntePosting,
            ante_posting_statuses: filled_bool(n, false),
            bet_collection_status: false,
            blind_or_straddle_posting_statuses: filled_bool(n, false),
            card_burning_status: false,
            hole_dealing_statuses: empty_bool_deques(n),
            board_dealing_counts: filled_usize(1, 0),
            standing_pat_or_discarding_statuses: filled_bool(n, false),
            actor_indices: std::collections::VecDeque::new(),
            opener_index: Option::None,
            bring_in_status: false,
            completion_status: false,
            completion_betting_or_raising_amount: 0,
            completion_betting_or_raising_count: 0,
            acted_player_indices: filled_bool(n, false),
            runout_count: Option::None,
            showdown_indices: std::collections::VecDeque::new(),
        };
        proof {
            lemma_sum_of_filled_zero(st.bets@);
            lemma_sum_of_filled_zero(st.payoffs@);
            assert(st.wf());
        }
        let ghost st0 = st;
        st.begin();
        proof {
            if st.spec_manual_chips() && (exists|i: int|
                0 <= i < st0.player_count && (st.spec_effective_ante(i) > 0
                    || st.spec_effective_blind(i) > 0)) {
                lemma_count_true_all(st0.statuses@);
                assert(st0.spec_manual_chips());
                assert forall|i: int|
                    0 <= i < st0.player_count implies st0.spec_effective_blind(i)
                    == st.spec_effective_blind(i) && st0.spec_effective_ante(i)
                    == st.spec_effective_ante(i) by {
                    assert(st0.spec_effective_ante(i) == st.spec_effective_ante(i));
                }
                let w = choose|i: int|
                    0 <= i < st0.player_count && (st.spec_effective_ante(i) > 0
                        || st.spec_effective_blind(i) > 0);
                assert(st0.spec_effective_ante(w) > 0 || st0.spec_effective_blind(w) > 0);
            }
        }
        Ok(st)
    }

    /// The ante a player would be assigned, zero if absent.
    pub open spec fn clean_ante(self, i: int) -> i64 {
        if self.raw_antes@.contains_key(i as usize) {
            self.raw_antes@[i as usize]
        } else {
            0i64
        }
    }

    /// The blind a player would be assigned, zero if absent.
    pub open spec fn clean_blind(self, i: int) -> i64 {
        if self.raw_blinds_or_straddles@.contains_key(i as usize) {
            self.raw_blinds_or_straddles@[i as usize]
        } else {
            0i64
        }
    }

    /// The starting stack a player would be assigned, zero if absent.
    pub open spec fn clean_stack(self, i: int) -> i64 {
        if self.raw_starting_stacks@.contains_key(i as usize) {
            self.raw_starting_stacks@[i as usize]
        } else {
            0i64
        }
    }

    /// The dense starting-stack vector.
    pub open spec fn clean_stacks_seq(self) -> Seq<i64> {
        Seq::new(self.player_count as nat, |i: int| self.clean_stack(i))
    }
}

/// For non-negative values, the whole sum dominates every prefix sum.
proof fn lemma_sum_take_monotone(s: Seq<i64>, k: int)
    requires
        0 <= k <= s.len(),
        forall|i: int| 0 <= i < s.len() ==> #[trigger] s[i] >= 0,
    ensures
        sum_i64(s) >= sum_i64(s.take(k)),
    decreases s.len() - k,
{
    if k < s.len() {
        lemma_sum_take_push(s, k);
        lemma_sum_take_monotone(s, k + 1);
    } else {
        assert(s.take(k) =~= s);
    }
}

/// Summing one more element extends a prefix sum.
proof fn lemma_sum_take_push(s: Seq<i64>, i: int)
    requires
        0 <= i < s.len(),
    ensures
        sum_i64(s.take(i + 1)) == sum_i64(s.take(i)) + s[i],
    decreases i,
{
    if i == 0 {
        assert(s.take(1) =~= seq![s[0]]);
        assert(s.take(1).skip(1) =~= Seq::<i64>::empty());
        assert(s.take(0) =~= Seq::<i64>::empty());
    } else {
        assert(s.take(i + 1)[0] == s[0]);
        assert(s.take(i + 1).skip(1) =~= s.skip(1).take(i));
        assert(s.take(i)[0] == s[0]);
        assert(s.take(i).skip(1) =~= s.skip(1).take(i - 1));
        assert(s.skip(1)[i - 1] == s[i]);
        lemma_sum_take_push(s.skip(1), i - 1);
    }
}


impl State {
    /// The effective ante of a player: the configured ante (indices
    /// swapped heads-up), capped by the player's starting stack.
    pub open spec fn spec_effective_ante(self, i: int) -> int {
        let a = if self.player_count == 2 {
            self.antes@[1 - i]
        } else {
            self.antes@[i]
        };
        if a <= self.starting_stacks@[i] {
            a as int
        } else {
            self.starting_stacks@[i] as int
        }
    }

    /// The effective blind or straddle of a player: the configured value's
    /// magnitude (indices swapped heads-up), capped by what the starting
    /// stack leaves after the ante.
    pub open spec fn spec_effective_blind(self, i: int) -> int {
        let b = if self.player_count == 2 {
            self.blinds_or_straddles@[1 - i]
        } else {
            self.blinds_or_straddles@[i]
        };
        let m = if b < 0 {
            -(b as int)
        } else {
            b as int
        };
        let room = self.starting_stacks@[i] - self.spec_effective_ante(i);
        if m <= room {
            m
        } else {
            room
        }
    }

    /// The effective ante of a player.
    pub fn get_effective_ante(&self, player_index: usize) -> (r: i64)
        requires
            self.wf(),
            player_index < self.player_count,
        ensures
            r as int == self.spec_effective_ante(player_index as int),
            0 <= r <= self.starting_stacks@[player_index as int],
    {
        let a = if self.player_count == 2 {
            self.antes[1 - player_index]
        } else {
            self.antes[player_index]
        };
        if a <= self.starting_stacks[player_index] {
            a
        } else {
            self.starting_stacks[player_index]
        }
    }

    /// The effective blind or straddle of a player.
    pub fn get_effective_blind_or_straddle(&self, player_index: usize) -> (r: i64)
        requires
            self.wf(),
            player_index < self.player_count,
        ensures
            r as int == self.spec_effective_blind(player_index as int),
            0 <= r,
            self.spec_effective_ante(player_index as int) + r
                <= self.starting_stacks@[player_index as int],
    {
        let b = if self.player_count == 2 {
            self.blinds_or_straddles[1 - player_index]
        } else {
            self.blinds_or_straddles[player_index]
        };
        let m = if b < 0 {
            -b
        } else {
            b
        };
        let ante = self.get_effective_ante(player_index);
        let room = self.starting_stacks[player_index] - ante;
        if m <= room {
            m
        } else {
            room
        }
    }

    /// The players still owing an ante, in position order.
    pub fn ante_poster_indices(&self) -> (r: Vec<usize>)
        requires
            self.wf(),
        ensures
            forall|k: int|
                0 <= k < r@.len() ==> (#[trigger] r@[k]) < self.player_count
                    && self.ante_posting_statuses@[r@[k] as int],
            forall|i: int|
                0 <= i < self.player_count && self.ante_posting_statuses@[i] ==> r@.contains(
                    i as usize,
                ),
    {
        let mut r: Vec<usize> = Vec::new();
        let mut i: usize = 0;
        while i < self.player_count
            invariant
                0 <= i <= self.player_count,
                self.wf(),
                forall|k: int|
                    0 <= k < r@.len() ==> (#[trigger] r@[k]) < self.player_count
                        && self.ante_posting_statuses@[r@[k] as int],
                forall|j: int|
                    0 <= j < i && self.ante_posting_statuses@[j] ==> r@.contains(j as usize),
            decreases self.player_count - i,
        {
            if self.ante_posting_statuses[i] {
                let ghost r0 = r@;
                r.push(i);
                proof {
                    assert(r@[r@.len() - 1] == i);
                    assert forall|j: int|
                        0 <= j <= i && self.ante_posting_statuses@[j] implies r@.contains(
                        j as usize,
                    ) by {
                        if j < i {
                            assert(r0.contains(j as usize));
                            let idx = choose|idx: int|
                                0 <= idx < r0.len() && r0[idx] == j as usize;
                            assert(r@[idx] == j as usize);
                        } else {
                            assert(r@[r@.len() - 1] == j as usize);
                        }
                    }
                }
            }
            i = i + 1;
        }
        r
    }

    /// The players still owing a blind or straddle, in position order.
    pub fn blind_or_straddle_poster_indices(&self) -> (r: Vec<usize>)
        requires
            self.wf(),
        ensures
            forall|k: int|
                0 <= k < r@.len() ==> (#[trigger] r@[k]) < self.player_count
                    && self.blind_or_straddle_posting_statuses@[r@[k] as int],
            forall|i: int|
                0 <= i < self.player_count && self.blind_or_straddle_posting_statuses@[i]
                    ==> r@.contains(i as usize),
    {
        let mut r: Vec<usize> = Vec::new();
        let mut i: usize = 0;
        while i < self.player_count
            invariant
                0 <= i <= self.player_count,
                self.wf(),
                forall|k: int|
                    0 <= k < r@.len() ==> (#[trigger] r@[k]) < self.player_count
                        && self.blind_or_straddle_posting_statuses@[r@[k] as int],
                forall|j: int|
                    0 <= j < i && self.blind_or_straddle_posting_statuses@[j] ==> r@.contains(
                        j as usize,
                    ),
            decreases self.player_count - i,
        {
            if self.blind_or_straddle_posting_statuses[i] {
                let ghost r0 = r@;
                r.push(i);
                proof {
                    assert(r@[r@.len() - 1] == i);
                    assert forall|j: int|
                        0 <= j <= i && self.blind_or_straddle_posting_statuses@[j] implies r@.contains(
                        j as usize,
                    ) by {
                        if j < i {
                            assert(r0.contains(j as usize));
                            let idx = choose|idx: int|
                                0 <= idx < r0.len() && r0[idx] == j as usize;
                            assert(r@[idx] == j as usize);
                        } else {
                            assert(r@[r@.len() - 1] == j as usize);
                        }
                    }
                }
            }
            i = i + 1;
        }
        r
    }

    /// The player owed the next hole card: the one with the most cards
    /// still coming, lowest position on a tie.
    pub fn hole_dealee_index(&self) -> (r: Option<usize>)
        requires
            self.wf(),
        ensures
            match r {
                Option::Some(p) => {
                    &&& (p as int) < self.player_count
                    &&& self.hole_dealing_statuses@[p as int]@.len() > 0
                    &&& forall|i: int|
                        0 <= i < self.player_count && i != p ==> (
                        #[trigger] self.hole_dealing_statuses@[i]@.len()
                            < self.hole_dealing_statuses@[p as int]@.len() || (
                        self.hole_dealing_statuses@[i]@.len()
                            == self.hole_dealing_statuses@[p as int]@.len() && i > p))
                },
                Option::None => forall|i: int|
                    0 <= i < self.player_count ==> (#[trigger] self.hole_dealing_statuses@[i]@.len()
                        == 0),
            },
    {
        let mut best: Option<usize> = Option::None;
        let mut i: usize = 0;
        while i < self.player_count
            invariant
                0 <= i <= self.player_count,
                self.wf(),
                match best {
                    Option::Some(p) => {
                        &&& (p as int) < i
                        &&& self.hole_dealing_statuses@[p as int]@.len() > 0
                        &&& forall|j: int|
                            0 <= j < i && j != p ==> (
                            #[trigger] self.hole_dealing_statuses@[j]@.len()
                                < self.hole_dealing_statuses@[p as int]@.len() || (
                            self.hole_dealing_statuses@[j]@.len()
                                == self.hole_dealing_statuses@[p as int]@.len() && j > p))
                    },
                    Option::None => forall|j: int|
                        0 <= j < i ==> (#[trigger] self.hole_dealing_statuses@[j]@.len() == 0),
                },
            decreases self.player_count - i,
        {
            let len_i = self.hole_dealing_statuses[i].len();
            if len_i > 0 {
                match best {
                    Option::Some(p) => {
                        if len_i > self.hole_dealing_statuses[p].len() {
                            best = Option::Some(i);
                        }
                    },
                    Option::None => {
                        best = Option::Some(i);
                    },
                }
            }
            i = i + 1;
        }
        best
    }

    /// The player whose turn it is to act, if any.
    pub fn actor_index(&self) -> (r: Option<usize>)
        ensures
            match r {
                Option::Some(p) => self.actor_indices@.len() > 0 && p == self.actor_indices@[0],
                Option::None => self.actor_indices@.len() == 0,
            },
    {
        if self.actor_indices.len() > 0 {
            Option::Some(self.actor_indices[0])
        } else {
            Option::None
        }
    }

    /// Whether a card may be burnt now.
    pub fn can_burn_card(&self, _card: Option<Card>) -> (r: bool)
        ensures
            r == self.card_burning_status,
    {
        self.card_burning_status
    }

    /// Whether every active player has either matched the highest bet or
    /// is all in, and has acted since the last aggression.
    #[verifier::loop_isolation(false)]
    fn betting_round_done(&self) -> (r: bool)
        requires
            self.wf(),
        ensures
            r == self.spec_betting_done(),
    {
        let max_bet = self.max_bet();
        let mut k: usize = 0;
        while k < self.player_count
            invariant
                0 <= k <= self.player_count,
                forall|j: int|
                    0 <= j < k && #[trigger] self.statuses@[j] ==> self.acted_player_indices@[j]
                        && (self.bets@[j] == seq_max0(self.bets@) || self.stacks@[j] == 0),
            decreases self.player_count - k,
        {
            if self.statuses[k] {
                if !self.acted_player_indices[k] {
                    return false;
                }
                if self.bets[k] != max_bet && self.stacks[k] != 0 {
                    return false;
                }
            }
            k = k + 1;
        }
        true
    }

    /// How many players are still in the hand.
    #[verifier::loop_isolation(false)]
    fn active_count(&self) -> (r: usize)
        requires
            self.wf(),
        ensures
            r <= self.player_count,
            r as int == count_true(self.statuses@),
    {
        let mut c: usize = 0;
        let mut i: usize = 0;
        proof {
            assert(self.statuses@.take(0) =~= Seq::<bool>::empty());
        }
        while i < self.player_count
            invariant
                0 <= i <= self.player_count,
                c <= i,
                c as int == count_true(self.statuses@.take(i as int)),
            decreases self.player_count - i,
        {
            proof {
                assert(self.statuses@.take(i as int + 1).drop_last() =~= self.statuses@.take(
                    i as int,
                ));
            }
            if self.statuses[i] {
                c = c + 1;
            }
            i = i + 1;
        }
        proof {
            assert(self.statuses@.take(self.player_count as int) =~= self.statuses@);
        }
        c
    }

    /// The highest pending bet.
    #[verifier::loop_isolation(false)]
    fn max_bet(&self) -> (r: i64)
        requires
            self.wf(),
        ensures
            r >= 0,
            r as int == seq_max0(self.bets@),
            forall|j: int| 0 <= j < self.player_count ==> #[trigger] self.bets@[j] <= r,
            r == 0 || exists|j: int| 0 <= j < self.player_count && #[trigger] self.bets@[j] == r,
    {
        let mut max_bet: i64 = 0;
        let mut i: usize = 0;
        proof {
            assert(self.bets@.take(0) =~= Seq::<i64>::empty());
        }
        while i < self.player_count
            invariant
                0 <= i <= self.player_count,
                max_bet >= 0,
                max_bet as int == seq_max0(self.bets@.take(i as int)),
                forall|j: int| 0 <= j < i ==> #[trigger] self.bets@[j] <= max_bet,
                max_bet == 0 || exists|j: int| 0 <= j < i && #[trigger] self.bets@[j] == max_bet,
            decreases self.player_count - i,
        {
            proof {
                assert(self.bets@.take(i as int + 1).drop_last() =~= self.bets@.take(i as int));
            }
            if self.bets[i] > max_bet {
                max_bet = self.bets[i];
            }
            i = i + 1;
        }
        proof {
            assert(self.bets@.take(self.player_count as int) =~= self.bets@);
        }
        max_bet
    }
}


impl State {
    /// Starts the hand: marks who owes an ante and runs the first
    /// automation pass, so the state comes to rest at its first decision
    /// point.
    fn begin(&mut self)
        requires
            old(self).wf(),
            old(self).phase == Phase::AntePosting,
        ensures
            final(self).wf(),
            old(self).same_config(*final(self)),
            final(self).at_rest(),
            final(self).statuses@ == old(self).statuses@,
            old(self).spec_manual_chips() ==> {
                &&& final(self).bets@ == old(self).bets@
                &&& final(self).stacks@ == old(self).stacks@
                &&& final(self).payoffs@ == old(self).payoffs@
            },
            old(self).spec_manual_dealing() ==> final(self).deck_cards@ == old(self).deck_cards@,
            old(self).spec_manual_chips() && old(self).spec_manual_dealing() ==> final(self).operations@ == old(self).operations@,
            (old(self).spec_manual_chips() && old(self).street_index is None && (forall|i: int|
                0 <= i < old(self).player_count ==> #[trigger] old(self).bets@[i] == 0i64)
                && count_true(old(self).statuses@) >= 2 && (exists|i: int|
                0 <= i < old(self).player_count && (old(self).spec_effective_ante(i) > 0 || old(
                    self,
                ).spec_effective_blind(i) > 0))) ==> final(self).street_index is None,
    {
        let n = self.player_count;
        let mut i: usize = 0;
        while i < n
            invariant
                0 <= i <= n,
                self.wf(),
                n == self.player_count,
                old(self).same_config(*self),
                self.phase == old(self).phase,
                self.statuses@ == old(self).statuses@,
                old(self).same_chips(*self),
                old(self).same_cards(*self),
                self.operations@ == old(self).operations@,
                self.street_index == old(self).street_index,
                forall|j: int|
                    0 <= j < i ==> #[trigger] self.ante_posting_statuses@[j] == (old(
                        self,
                    ).spec_effective_ante(j) > 0),
            decreases n - i,
        {
            let owes = self.get_effective_ante(i) > 0;
            proof {
                assert(self.spec_effective_ante(i as int) == old(self).spec_effective_ante(
                    i as int,
                ));
            }
            self.ante_posting_statuses.set(i, owes);
            i = i + 1;
        }
        self.phase = Phase::AntePosting;
        proof {
            if old(self).spec_manual_chips() && old(self).street_index is None && (forall|i: int|
                0 <= i < old(self).player_count ==> #[trigger] old(self).bets@[i] == 0i64)
                && count_true(old(self).statuses@) >= 2 && (exists|i: int|
                0 <= i < old(self).player_count && (old(self).spec_effective_ante(i) > 0 || old(
                    self,
                ).spec_effective_blind(i) > 0)) {
                assert forall|i: int|
                    0 <= i < old(self).player_count implies self.spec_effective_blind(i) == old(
                    self,
                ).spec_effective_blind(i) by {
                    assert(self.spec_effective_ante(i) == old(self).spec_effective_ante(i));
                }
                let w = choose|i: int|
                    0 <= i < old(self).player_count && (old(self).spec_effective_ante(i) > 0 || old(
                        self,
                    ).spec_effective_blind(i) > 0);
                if old(self).spec_effective_ante(w) > 0 {
                    assert(self.ante_posting_statuses@[w]);
                } else {
                    assert(self.spec_effective_blind(w) > 0);
                }
            }
        }
        self.advance();
    }

    /// Posts one player's effective ante: chips move from the stack to the
    /// pending bet and the posting flag clears.
    fn do_post_ante(&mut self, player_index: usize, commentary: Option<String>) -> (op:
        AntePosting)
        requires
            old(self).wf(),
            old(self).phase == Phase::AntePosting,
            player_index < old(self).player_count,
            old(self).ante_posting_statuses@[player_index as int],
        ensures
            final(self).wf(),
            old(self).same_config(*final(self)),
            op.player_index == player_index,
            op.amount as int == (if old(self).spec_effective_ante(player_index as int) <= old(
                self,
            ).stacks@[player_index as int] {
                old(self).spec_effective_ante(player_index as int)
            } else {
                old(self).stacks@[player_index as int] as int
            }),
            final(self).operations@.len() == old(self).operations@.len() + 1,
            forall|i: int|
                0 <= i < old(self).operations@.len() ==> #[trigger] final(self).operations@[i]
                    == old(self).operations@[i],
            final(self).operations@.last() matches Operation::AntePosting(o) && o.player_index
                == player_index && o.amount == op.amount,
            final(self).ante_posting_statuses@ == old(self).ante_posting_statuses@.update(
                player_index as int,
                false,
            ),
            final(self).bets@ == old(self).bets@.update(
                player_index as int,
                (old(self).bets@[player_index as int] + op.amount) as i64,
            ),
            final(self).stacks@ == old(self).stacks@.update(
                player_index as int,
                (old(self).stacks@[player_index as int] - op.amount) as i64,
            ),
            final(self).payoffs@ == old(self).payoffs@,
            final(self).statuses@ == old(self).statuses@,
            old(self).same_cards(*final(self)),
            old(self).same_betting_round(*final(self)),
            old(self).same_dealing_duties(*final(self)),
            final(self).street_index == old(self).street_index,
            final(self).bet_collection_status == old(self).bet_collection_status,
            final(self).blind_or_straddle_posting_statuses@ == old(
                self,
            ).blind_or_straddle_posting_statuses@,
            final(self).phase == old(self).phase,
    {
        let p = player_index;
        let amount = self.get_effective_ante(p);
        proof {
            lemma_sum_bounds_elem(self.bets@, p as int);
            lemma_sum_bounds_elem(self.stacks@, p as int);
            lemma_sum_nonneg(self.bets@);
            lemma_sum_nonneg(self.stacks@);
            lemma_sum_neg(self.payoffs@);
        }
        // The ante is posted at the start of the hand, so the stack still
        // holds at least the starting stack minus earlier commitments; cap
        // defensively at the stack to keep chips in range.
        let pay = if amount <= self.stacks[p] {
            amount
        } else {
            self.stacks[p]
        };
        let ghost bets0 = self.bets@;
        let ghost stacks0 = self.stacks@;
        let old_bet = self.bets[p];
        proof {
            lemma_sum_update(self.bets@, p as int, (old_bet + pay) as i64);
            lemma_sum_update(self.stacks@, p as int, (self.stacks@[p as int] - pay) as i64);
        }
        self.bets.set(p, old_bet + pay);
        let new_stack = self.stacks[p] - pay;
        self.stacks.set(p, new_stack);
        self.ante_posting_statuses.set(p, false);
        let commentary_log: Option<String> = match &commentary {
            Option::Some(c) => Option::Some(c.clone()),
            Option::None => Option::None,
        };
        let op_log = AntePosting { player_index: p, amount: pay, commentary: commentary_log };
        self.operations.push(Operation::AntePosting(op_log));
        let op = AntePosting { player_index: p, amount: pay, commentary };
        proof {
            assert(self.wf());
        }
        op
    }

    /// Posts one player's effective blind or straddle.
    fn do_post_blind(&mut self, player_index: usize, commentary: Option<String>) -> (op:
        BlindOrStraddlePosting)
        requires
            old(self).wf(),
            old(self).phase == Phase::BlindOrStraddlePosting,
            player_index < old(self).player_count,
            old(self).blind_or_straddle_posting_statuses@[player_index as int],
        ensures
            final(self).wf(),
            old(self).same_config(*final(self)),
            op.player_index == player_index,
            0 <= op.amount,
            op.amount as int <= old(self).spec_effective_blind(player_index as int),
            op.amount as int == old(self).spec_effective_blind(player_index as int)
                || op.amount == old(self).stacks@[player_index as int],
            final(self).operations@.len() == old(self).operations@.len() + 1,
            forall|i: int|
                0 <= i < old(self).operations@.len() ==> #[trigger] final(self).operations@[i]
                    == old(self).operations@[i],
            final(self).operations@.last() matches Operation::BlindOrStraddlePosting(o)
                && o.player_index == player_index && o.amount == op.amount,
            final(self).blind_or_straddle_posting_statuses@ == old(
                self,
            ).blind_or_straddle_posting_statuses@.update(player_index as int, false),
            final(self).bets@ == old(self).bets@.update(
                player_index as int,
                (old(self).bets@[player_index as int] + op.amount) as i64,
            ),
            final(self).stacks@ == old(self).stacks@.update(
                player_index as int,
                (old(self).stacks@[player_index as int] - op.amount) as i64,
            ),
            final(self).payoffs@ == old(self).payoffs@,
            final(self).statuses@ == old(self).statuses@,
            old(self).same_cards(*final(self)),
            old(self).same_betting_round(*final(self)),
            old(self).same_dealing_duties(*final(self)),
            final(self).street_index == old(self).street_index,
            final(self).bet_collection_status == old(self).bet_collection_status,
            final(self).ante_posting_statuses@ == old(self).ante_posting_statuses@,
            final(self).phase == old(self).phase,
    {
        let p = player_index;
        let amount = self.get_effective_blind_or_straddle(p);
        proof {
            lemma_sum_bounds_elem(self.bets@, p as int);
            lemma_sum_bounds_elem(self.stacks@, p as int);
        }
        let pay = if amount <= self.stacks[p] {
            amount
        } else {
            self.stacks[p]
        };
        let old_bet = self.bets[p];
        proof {
            lemma_sum_bounds_elem(self.bets@, p as int);
            lemma_sum_nonneg(self.bets@);
            lemma_sum_nonneg(self.stacks@);
            lemma_sum_neg(self.payoffs@);
            lemma_sum_update(self.bets@, p as int, (old_bet + pay) as i64);
            lemma_sum_update(self.stacks@, p as int, (self.stacks@[p as int] - pay) as i64);
        }
        self.bets.set(p, old_bet + pay);
        let new_stack = self.stacks[p] - pay;
        self.stacks.set(p, new_stack);
        self.blind_or_straddle_posting_statuses.set(p, false);
        let commentary_log: Option<String> = match &commentary {
            Option::Some(c) => Option::Some(c.clone()),
            Option::None => Option::None,
        };
        let op_log = BlindOrStraddlePosting {
            player_index: p,
            amount: pay,
            commentary: commentary_log,
        };
        self.operations.push(Operation::BlindOrStraddlePosting(op_log));
        let op = BlindOrStraddlePosting { player_index: p, amount: pay, commentary };
        proof {
            assert(self.wf());
        }
        op
    }

    /// Sweeps every pending bet into the collected chips.
    fn do_collect_bets(&mut self, commentary: Option<String>) -> (op: BetCollection)
        requires
            old(self).wf(),
            old(self).bet_collection_status,
        ensures
            final(self).wf(),
            old(self).same_config(*final(self)),
            final(self).operations@.len() == old(self).operations@.len() + 1,
            forall|i: int|
                0 <= i < old(self).operations@.len() ==> #[trigger] final(self).operations@[i]
                    == old(self).operations@[i],
            op.bets@ == old(self).bets@,
            !final(self).bet_collection_status,
            forall|i: int|
                0 <= i < final(self).player_count ==> #[trigger] final(self).bets@[i] == 0i64,
            forall|i: int|
                0 <= i < final(self).player_count ==> #[trigger] final(self).payoffs@[i] == old(
                    self,
                ).payoffs@[i] - old(self).bets@[i],
            final(self).stacks@ == old(self).stacks@,
            final(self).statuses@ == old(self).statuses@,
            old(self).same_cards(*final(self)),
            old(self).same_betting_round(*final(self)),
            old(self).same_dealing_duties(*final(self)),
            final(self).street_index == old(self).street_index,
            final(self).ante_posting_statuses@ == old(self).ante_posting_statuses@,
            final(self).blind_or_straddle_posting_statuses@ == old(
                self,
            ).blind_or_straddle_posting_statuses@,
            final(self).operations@.last() matches Operation::BetCollection(o) && o.bets@ == old(
                self,
            ).bets@,
            final(self).phase == old(self).phase,
    {
        self.bet_collection_status = false;
        let collected = self.bets.clone();
        proof {
            assert(collected@ =~= self.bets@);
        }
        let n = self.player_count;
        let mut i: usize = 0;
        while i < n
            invariant
                0 <= i <= n,
                self.wf(),
                n == self.player_count,
                old(self).same_config(*self),
                self.operations@ == old(self).operations@,
                self.phase == old(self).phase,
                !self.bet_collection_status,
                self.stacks@ == old(self).stacks@,
                self.statuses@ == old(self).statuses@,
                old(self).same_cards(*self),
                old(self).same_betting_round(*self),
                old(self).same_dealing_duties(*self),
                self.street_index == old(self).street_index,
                self.ante_posting_statuses@ == old(self).ante_posting_statuses@,
                self.blind_or_straddle_posting_statuses@ == old(
                    self,
                ).blind_or_straddle_posting_statuses@,
                forall|j: int| 0 <= j < i ==> #[trigger] self.bets@[j] == 0i64,
                forall|j: int|
                    0 <= j < i ==> #[trigger] self.payoffs@[j] == old(self).payoffs@[j] - old(
                        self,
                    ).bets@[j],
                forall|j: int| i <= j < n ==> #[trigger] self.payoffs@[j] == old(self).payoffs@[j],
                forall|j: int| i <= j < n ==> #[trigger] self.bets@[j] == old(self).bets@[j],
            decreases n - i,
        {
            let b = self.bets[i];
            let pf = self.payoffs[i];
            proof {
                lemma_sum_bounds_elem(self.bets@, i as int);
                lemma_sum_nonneg(self.bets@);
                lemma_sum_nonneg(self.stacks@);
                lemma_sum_neg(self.payoffs@);
                lemma_sum_bounds_neg_elem(self.payoffs@, i as int);
                lemma_sum_update(self.bets@, i as int, 0i64);
                lemma_sum_update(self.payoffs@, i as int, (pf - b) as i64);
            }
            self.payoffs.set(i, pf - b);
            self.bets.set(i, 0);
            i = i + 1;
        }
        let collected2 = collected.clone();
        proof {
            assert(collected2@ =~= collected@);
        }
        let commentary_log: Option<String> = match &commentary {
            Option::Some(c) => Option::Some(c.clone()),
            Option::None => Option::None,
        };
        let op_log = BetCollection { bets: collected2, commentary: commentary_log };
        self.operations.push(Operation::BetCollection(op_log));
        let op = BetCollection { bets: collected, commentary };
        proof {
            assert(self.wf());
        }
        op
    }
}

/// A sum of non-positive values is non-positive, and bounds each element
/// from below.
pub proof fn lemma_sum_neg(s: Seq<i64>)
    requires
        forall|j: int| 0 <= j < s.len() ==> #[trigger] s[j] <= 0,
    ensures
        sum_i64(s) <= 0,
    decreases s.len(),
{
    if s.len() > 0 {
        assert(forall|j: int| 0 <= j < s.skip(1).len() ==> s.skip(1)[j] == s[j + 1]);
        lemma_sum_neg(s.skip(1));
    }
}

pub proof fn lemma_sum_bounds_neg_elem(s: Seq<i64>, i: int)
    requires
        0 <= i < s.len(),
        forall|j: int| 0 <= j < s.len() ==> #[trigger] s[j] <= 0,
    ensures
        sum_i64(s) <= s[i] <= 0,
    decreases s.len(),
{
    if s.len() > 0 {
        assert(forall|j: int| 0 <= j < s.skip(1).len() ==> s.skip(1)[j] == s[j + 1]);
        if i == 0 {
            lemma_sum_neg(s.skip(1));
        } else {
            lemma_sum_bounds_neg_elem(s.skip(1), i - 1);
        }
    }
}


impl State {
    /// Whether any pending bet is positive.
    fn any_positive_bet(&self) -> (r: bool)
        requires
            self.wf(),
        ensures
            r == exists|i: int| 0 <= i < self.player_count && #[trigger] self.bets@[i] > 0,
    {
        let mut i: usize = 0;
        while i < self.player_count
            invariant
                0 <= i <= self.player_count,
                self.wf(),
                forall|j: int| 0 <= j < i ==> #[trigger] self.bets@[j] <= 0,
            decreases self.player_count - i,
        {
            if self.bets[i] > 0 {
                return true;
            }
            i = i + 1;
        }
        false
    }

    /// The first board still owed cards, if any.
    fn board_pending_index(&self) -> (r: Option<usize>)
        requires
            self.wf(),
        ensures
            match r {
                Option::Some(b) => (b as int) < self.starting_board_count
                    && self.board_dealing_counts@[b as int] > 0 && forall|j: int|
                    0 <= j < b ==> #[trigger] self.board_dealing_counts@[j] == 0,
                Option::None => forall|j: int|
                    0 <= j < self.starting_board_count
                        ==> #[trigger] self.board_dealing_counts@[j] == 0,
            },
    {
        let mut i: usize = 0;
        while i < self.board_dealing_counts.len()
            invariant
                0 <= i <= self.board_dealing_counts@.len(),
                self.wf(),
                forall|j: int| 0 <= j < i ==> #[trigger] self.board_dealing_counts@[j] == 0,
            decreases self.board_dealing_counts@.len() - i,
        {
            if self.board_dealing_counts[i] > 0 {
                return Option::Some(i);
            }
            i = i + 1;
        }
        Option::None
    }

    /// Burns the top card of the deck.
    fn do_burn_card(&mut self, card: Option<Card>, commentary: Option<String>) -> (op: CardBurning)
        requires
            old(self).wf(),
            old(self).card_burning_status,
            card is Some || old(self).deck_cards@.len() > 0,
        ensures
            final(self).wf(),
            old(self).same_config(*final(self)),
            final(self).operations@.len() == old(self).operations@.len() + 1,
            forall|i: int|
                0 <= i < old(self).operations@.len() ==> #[trigger] final(self).operations@[i]
                    == old(self).operations@[i],
            !final(self).card_burning_status,
            final(self).phase == old(self).phase,
            op.card == (match card {
                Option::Some(c) => c,
                Option::None => old(self).deck_cards@[0],
            }),
            final(self).burn_cards@ == old(self).burn_cards@.push(op.card),
            final(self).deck_cards@ == (if card is Some {
                old(self).deck_cards@
            } else {
                old(self).deck_cards@.skip(1)
            }),
            old(self).same_chips(*final(self)),
            final(self).statuses@ == old(self).statuses@,
            old(self).same_betting_round(*final(self)),
            final(self).street_index == old(self).street_index,
            final(self).bet_collection_status == old(self).bet_collection_status,
            final(self).ante_posting_statuses@ == old(self).ante_posting_statuses@,
            final(self).blind_or_straddle_posting_statuses@ == old(
                self,
            ).blind_or_straddle_posting_statuses@,
            final(self).hole_cards@ == old(self).hole_cards@,
            final(self).hole_card_statuses@ == old(self).hole_card_statuses@,
            final(self).board_cards@ == old(self).board_cards@,
            final(self).mucked_cards@ == old(self).mucked_cards@,
            final(self).hole_dealing_statuses@ == old(self).hole_dealing_statuses@,
            final(self).board_dealing_counts@ == old(self).board_dealing_counts@,
            final(self).standing_pat_or_discarding_statuses@ == old(
                self,
            ).standing_pat_or_discarding_statuses@,
            final(self).discarded_cards@ == old(self).discarded_cards@,
            final(self).operations@.last() matches Operation::CardBurning(o) && o.card == op.card,
    {
        let card_to_burn = match card {
            Option::Some(c) => c,
            Option::None => {
                let c = self.deck_cards.pop_front();
                match c {
                    Option::Some(c) => c,
                    Option::None => {
                        proof {
                            assert(false);
                        }
                        Card { rank: crate::utilities::Rank::Unknown, suit: crate::utilities::Suit::Unknown }
                    },
                }
            },
        };
        self.card_burning_status = false;
        self.burn_cards.push(card_to_burn);
        let commentary_log: Option<String> = match &commentary {
            Option::Some(c) => Option::Some(c.clone()),
            Option::None => Option::None,
        };
        self.operations.push(
            Operation::CardBurning(CardBurning { card: card_to_burn, commentary: commentary_log }),
        );
        let op = CardBurning { card: card_to_burn, commentary };
        op
    }

    /// Deals one hole card from the top of the deck to a player.
    fn do_deal_hole_one(&mut self, player_index: usize, commentary: Option<String>) -> (op:
        HoleDealing)
        requires
            old(self).wf(),
            player_index < old(self).player_count,
            old(self).hole_dealing_statuses@[player_index as int]@.len() > 0,
            old(self).deck_cards@.len() > 0,
        ensures
            final(self).wf(),
            old(self).same_config(*final(self)),
            final(self).operations@.len() == old(self).operations@.len() + 1,
            forall|i: int|
                0 <= i < old(self).operations@.len() ==> #[trigger] final(self).operations@[i]
                    == old(self).operations@[i],
            final(self).hole_dealing_statuses@[player_index as int]@.len() == old(
                self,
            ).hole_dealing_statuses@[player_index as int]@.len() - 1,
            final(self).hole_dealing_statuses@.len() == old(self).hole_dealing_statuses@.len(),
            forall|i: int|
                0 <= i < old(self).player_count && i != player_index
                    ==> #[trigger] final(self).hole_dealing_statuses@[i]@ == old(
                    self,
                ).hole_dealing_statuses@[i]@,
            final(self).phase == old(self).phase,
            final(self).card_burning_status == old(self).card_burning_status,
            op.player_index == player_index,
            op.cards@ == seq![old(self).deck_cards@[0]],
            op.statuses@ == seq![old(self).hole_dealing_statuses@[player_index as int]@[0]],
            final(self).deck_cards@ == old(self).deck_cards@.skip(1),
            final(self).hole_dealing_statuses@[player_index as int]@ == old(
                self,
            ).hole_dealing_statuses@[player_index as int]@.skip(1),
            final(self).hole_cards@.len() == old(self).hole_cards@.len(),
            final(self).hole_cards@[player_index as int]@ == old(
                self,
            ).hole_cards@[player_index as int]@.push(old(self).deck_cards@[0]),
            forall|i: int|
                0 <= i < old(self).player_count && i != player_index ==> (#[trigger] final(self).hole_cards@[i])@ == old(self).hole_cards@[i]@,
            final(self).hole_card_statuses@.len() == old(self).hole_card_statuses@.len(),
            final(self).hole_card_statuses@[player_index as int]@ == old(
                self,
            ).hole_card_statuses@[player_index as int]@.push(
                old(self).hole_dealing_statuses@[player_index as int]@[0],
            ),
            forall|i: int|
                0 <= i < old(self).player_count && i != player_index ==> (#[trigger] final(self).hole_card_statuses@[i])@ == old(self).hole_card_statuses@[i]@,
            old(self).same_chips(*final(self)),
            final(self).statuses@ == old(self).statuses@,
            old(self).same_betting_round(*final(self)),
            final(self).street_index == old(self).street_index,
            final(self).bet_collection_status == old(self).bet_collection_status,
            final(self).ante_posting_statuses@ == old(self).ante_posting_statuses@,
            final(self).blind_or_straddle_posting_statuses@ == old(
                self,
            ).blind_or_straddle_posting_statuses@,
            final(self).board_cards@ == old(self).board_cards@,
            final(self).mucked_cards@ == old(self).mucked_cards@,
            final(self).burn_cards@ == old(self).burn_cards@,
            final(self).board_dealing_counts@ == old(self).board_dealing_counts@,
            final(self).standing_pat_or_discarding_statuses@ == old(
                self,
            ).standing_pat_or_discarding_statuses@,
            final(self).discarded_cards@ == old(self).discarded_cards@,
            final(self).operations@.last() matches Operation::HoleDealing(o) && o.player_index
                == player_index && o.cards@ == op.cards@ && o.statuses@ == op.statuses@,
    {
        let p = player_index;
        let card = match self.deck_cards.pop_front() {
            Option::Some(c) => c,
            Option::None => {
                proof {
                    assert(false);
                }
                Card { rank: crate::utilities::Rank::Unknown, suit: crate::utilities::Suit::Unknown }
            },
        };
        let mut q = self.hole_dealing_statuses[p].clone();
        proof {
            assert(q@ =~= self.hole_dealing_statuses@[p as int]@);
        }
        let st = match q.pop_front() {
            Option::Some(b) => b,
            Option::None => {
                proof {
                    assert(false);
                }
                false
            },
        };
        self.hole_dealing_statuses.set(p, q);
        let mut hc = self.hole_cards[p].clone();
        proof {
            assert(hc@ =~= self.hole_cards@[p as int]@);
        }
        hc.push(card);
        self.hole_cards.set(p, hc);
        let mut hs = self.hole_card_statuses[p].clone();
        proof {
            assert(hs@ =~= self.hole_card_statuses@[p as int]@);
        }
        hs.push(st);
        self.hole_card_statuses.set(p, hs);
        let mut cards: Vec<Card> = Vec::new();
        cards.push(card);
        let mut sts: Vec<bool> = Vec::new();
        sts.push(st);
        let mut cards_log: Vec<Card> = Vec::new();
        cards_log.push(card);
        let mut sts_log: Vec<bool> = Vec::new();
        sts_log.push(st);
        let commentary_log: Option<String> = match &commentary {
            Option::Some(c) => Option::Some(c.clone()),
            Option::None => Option::None,
        };
        self.operations.push(
            Operation::HoleDealing(
                HoleDealing {
                    player_index: p,
                    cards: cards_log,
                    statuses: sts_log,
                    commentary: commentary_log,
                },
            ),
        );
        proof {
            assert(cards@ =~= seq![old(self).deck_cards@[0]]);
            assert(sts@ =~= seq![old(self).hole_dealing_statuses@[p as int]@[0]]);
            assert(self.deck_cards@ =~= old(self).deck_cards@.skip(1));
            assert(self.hole_dealing_statuses@[p as int]@ =~= old(
                self,
            ).hole_dealing_statuses@[p as int]@.skip(1));
        }
        let op = HoleDealing { player_index: p, cards, statuses: sts, commentary };
        op
    }

    /// Deals a board's outstanding cards from the top of the deck.
    fn do_deal_board(&mut self, board_index: usize, commentary: Option<String>) -> (op:
        BoardDealing)
        requires
            old(self).wf(),
            board_index < old(self).starting_board_count,
            old(self).board_dealing_counts@[board_index as int] > 0,
            old(self).deck_cards@.len() >= old(self).board_dealing_counts@[board_index as int],
        ensures
            final(self).wf(),
            old(self).same_config(*final(self)),
            final(self).operations@.len() == old(self).operations@.len() + 1,
            forall|i: int|
                0 <= i < old(self).operations@.len() ==> #[trigger] final(self).operations@[i]
                    == old(self).operations@[i],
            final(self).board_dealing_counts@ == old(self).board_dealing_counts@.update(
                board_index as int,
                0usize,
            ),
            final(self).hole_dealing_statuses@ == old(self).hole_dealing_statuses@,
            final(self).phase == old(self).phase,
            final(self).card_burning_status == old(self).card_burning_status,
            op.cards@ == old(self).deck_cards@.take(
                old(self).board_dealing_counts@[board_index as int] as int,
            ),
            final(self).deck_cards@ == old(self).deck_cards@.skip(
                old(self).board_dealing_counts@[board_index as int] as int,
            ),
            final(self).board_cards@.len() == old(self).board_cards@.len(),
            final(self).board_cards@[board_index as int]@ == old(
                self,
            ).board_cards@[board_index as int]@ + op.cards@,
            forall|i: int|
                0 <= i < old(self).starting_board_count && i != board_index ==> (#[trigger] final(self).board_cards@[i])@ == old(self).board_cards@[i]@,
            old(self).same_chips(*final(self)),
            final(self).statuses@ == old(self).statuses@,
            old(self).same_betting_round(*final(self)),
            final(self).street_index == old(self).street_index,
            final(self).bet_collection_status == old(self).bet_collection_status,
            final(self).ante_posting_statuses@ == old(self).ante_posting_statuses@,
            final(self).blind_or_straddle_posting_statuses@ == old(
                self,
            ).blind_or_straddle_posting_statuses@,
            final(self).hole_cards@ == old(self).hole_cards@,
            final(self).hole_card_statuses@ == old(self).hole_card_statuses@,
            final(self).mucked_cards@ == old(self).mucked_cards@,
            final(self).burn_cards@ == old(self).burn_cards@,
            final(self).standing_pat_or_discarding_statuses@ == old(
                self,
            ).standing_pat_or_discarding_statuses@,
            final(self).discarded_cards@ == old(self).discarded_cards@,
            final(self).operations@.last() matches Operation::BoardDealing(o) && o.cards@
                == op.cards@,
    {
        let b = board_index;
        let count = self.board_dealing_counts[b];
        let mut dealt: Vec<Card> = Vec::new();
        let mut k: usize = 0;
        while k < count
            invariant
                0 <= k <= count,
                self.wf(),
                old(self).same_config(*self),
                self.deck_cards@.len() == old(self).deck_cards@.len() - k,
                count == old(self).board_dealing_counts@[b as int],
                count <= old(self).deck_cards@.len(),
                b < self.starting_board_count,
                dealt@.len() == k,
                self.board_dealing_counts@ == old(self).board_dealing_counts@,
                self.hole_dealing_statuses@ == old(self).hole_dealing_statuses@,
                self.operations@ == old(self).operations@,
                self.board_cards@.len() == self.starting_board_count,
                self.phase == old(self).phase,
                self.card_burning_status == old(self).card_burning_status,
                dealt@ == old(self).deck_cards@.take(k as int),
                self.deck_cards@ == old(self).deck_cards@.skip(k as int),
                self.board_cards@[b as int]@ == old(self).board_cards@[b as int]@ + dealt@,
                forall|i: int|
                    0 <= i < self.starting_board_count && i != b ==> (#[trigger] self.board_cards@[i])@
                        == old(self).board_cards@[i]@,
                old(self).same_chips(*self),
                self.statuses@ == old(self).statuses@,
                old(self).same_betting_round(*self),
                self.street_index == old(self).street_index,
                self.bet_collection_status == old(self).bet_collection_status,
                self.ante_posting_statuses@ == old(self).ante_posting_statuses@,
                self.blind_or_straddle_posting_statuses@ == old(
                    self,
                ).blind_or_straddle_posting_statuses@,
                self.hole_cards@ == old(self).hole_cards@,
                self.hole_card_statuses@ == old(self).hole_card_statuses@,
                self.mucked_cards@ == old(self).mucked_cards@,
                self.burn_cards@ == old(self).burn_cards@,
                self.standing_pat_or_discarding_statuses@ == old(
                    self,
                ).standing_pat_or_discarding_statuses@,
                self.discarded_cards@ == old(self).discarded_cards@,
            decreases count - k,
        {
            let card = match self.deck_cards.pop_front() {
                Option::Some(c) => c,
                Option::None => {
                    proof {
                        assert(false);
                    }
                    Card { rank: crate::utilities::Rank::Unknown, suit: crate::utilities::Suit::Unknown }
                },
            };
            let mut bc = self.board_cards[b].clone();
            proof {
                assert(bc@ =~= self.board_cards@[b as int]@);
            }
            bc.push(card);
            self.board_cards.set(b, bc);
            dealt.push(card);
            proof {
                assert(card == old(self).deck_cards@[k as int]);
                assert(dealt@ =~= old(self).deck_cards@.take(k as int + 1));
                assert(self.deck_cards@ =~= old(self).deck_cards@.skip(k as int + 1));
                assert(self.board_cards@[b as int]@ =~= old(self).board_cards@[b as int]@
                    + dealt@);
            }
            k = k + 1;
        }
        self.board_dealing_counts.set(b, 0);
        let dealt_log = dealt.clone();
        proof {
            assert(dealt_log@ =~= dealt@);
        }
        let commentary_log: Option<String> = match &commentary {
            Option::Some(c) => Option::Some(c.clone()),
            Option::None => Option::None,
        };
        self.operations.push(
            Operation::BoardDealing(BoardDealing { cards: dealt_log, commentary: commentary_log }),
        );
        let op = BoardDealing { cards: dealt, commentary };
        op
    }

    /// Enters the next street's dealing phase: the burn flag, per-player
    /// hole-deal queues, draw flags, and board counts come from the street.
    fn begin_dealing_step(&mut self)
        requires
            old(self).wf(),
            old(self).phase != Phase::Betting,
        ensures
            final(self).wf(),
            old(self).same_config(*final(self)),
            final(self).phase == Phase::Dealing || final(self).phase == Phase::Showdown,
            old(self).same_chips(*final(self)),
            final(self).statuses@ == old(self).statuses@,
            old(self).same_cards(*final(self)),
            final(self).operations@ == old(self).operations@,
            old(self).same_betting_round(*final(self)),
            final(self).ante_posting_statuses@ == old(self).ante_posting_statuses@,
            final(self).blind_or_straddle_posting_statuses@ == old(
                self,
            ).blind_or_straddle_posting_statuses@,
            final(self).bet_collection_status == old(self).bet_collection_status,
            final(self).phase == Phase::Showdown ==> final(self).street_index == old(
                self,
            ).street_index && old(self).same_dealing_duties(*final(self)),
            final(self).phase == Phase::Dealing ==> final(self).spec_street_units() == old(
                self,
            ).spec_street_units() - 1 && final(self).street_index is Some,
            old(self).street_index is None ==> final(self).phase == Phase::Dealing,
    {
        let slen = self.streets.len();
        let next: usize = match self.street_index {
            Option::None => 0,
            Option::Some(i) => {
                proof {
                    assert((i as int) < self.streets@.len());
                }
                if i < slen {
                    i + 1
                } else {
                    slen
                }
            },
        };
        if next >= self.streets.len() {
            // No further street: the hand moves to its showdown.
            self.phase = Phase::Showdown;
            return ;
        }
        self.street_index = Option::Some(next);
        let burning = self.streets[next].card_burning_status;
        let draw = self.streets[next].draw_status;
        let board_count = self.streets[next].board_dealing_count;
        self.card_burning_status = burning;
        let n = self.player_count;
        let mut i: usize = 0;
        while i < n
            invariant
                0 <= i <= n,
                self.wf(),
                n == self.player_count,
                old(self).same_config(*self),
                self.phase == old(self).phase,
                self.street_index == Option::Some(next),
                (next as int) < self.streets@.len(),
                old(self).same_chips(*self),
                self.statuses@ == old(self).statuses@,
                old(self).same_cards(*self),
                self.operations@ == old(self).operations@,
                old(self).same_betting_round(*self),
                self.ante_posting_statuses@ == old(self).ante_posting_statuses@,
                self.blind_or_straddle_posting_statuses@ == old(
                    self,
                ).blind_or_straddle_posting_statuses@,
                self.bet_collection_status == old(self).bet_collection_status,
            decreases n - i,
        {
            if self.statuses[i] {
                let mut q = self.hole_dealing_statuses[i].clone();
                proof {
                    assert(q@ =~= self.hole_dealing_statuses@[i as int]@);
                }
                let pattern_len = self.streets[next].hole_dealing_statuses.len();
                let mut k: usize = 0;
                while k < pattern_len
                    invariant
                        0 <= k <= pattern_len,
                        (next as int) < self.streets@.len(),
                        pattern_len == self.streets@[next as int].hole_dealing_statuses@.len(),
                    decreases pattern_len - k,
                {
                    q.push_back(self.streets[next].hole_dealing_statuses[k]);
                    k = k + 1;
                }
                self.hole_dealing_statuses.set(i, q);
                self.standing_pat_or_discarding_statuses.set(i, draw);
            }
            i = i + 1;
        }
        let boards = self.starting_board_count;
        let mut bi: usize = 0;
        while bi < boards
            invariant
                0 <= bi <= boards,
                self.wf(),
                boards == self.starting_board_count,
                old(self).same_config(*self),
                self.phase == old(self).phase,
                self.street_index == Option::Some(next),
                (next as int) < self.streets@.len(),
                old(self).same_chips(*self),
                self.statuses@ == old(self).statuses@,
                old(self).same_cards(*self),
                self.operations@ == old(self).operations@,
                old(self).same_betting_round(*self),
                self.ante_posting_statuses@ == old(self).ante_posting_statuses@,
                self.blind_or_straddle_posting_statuses@ == old(
                    self,
                ).blind_or_straddle_posting_statuses@,
                self.bet_collection_status == old(self).bet_collection_status,
            decreases boards - bi,
        {
            self.board_dealing_counts.set(bi, board_count);
            bi = bi + 1;
        }
        self.phase = Phase::Dealing;
    }

    /// Opens the betting round: picks the opener by the position rule
    /// (pre-flop the first active seat after the largest pending bet,
    /// wrapping; later streets the lowest-index active seat), rebuilds the
    /// actor queue as the active players with chips behind, cyclically
    /// from the opener, and clears the acted set.
    #[verifier::loop_isolation(false)]
    fn begin_betting_step(&mut self)
        requires
            old(self).wf(),
        ensures
            final(self).wf(),
            old(self).same_config(*final(self)),
            final(self).phase == Phase::Betting,
            final(self).street_index == old(self).street_index,
            old(self).same_chips(*final(self)),
            final(self).statuses@ == old(self).statuses@,
            old(self).same_cards(*final(self)),
            final(self).operations@ == old(self).operations@,
            final(self).ante_posting_statuses@ == old(self).ante_posting_statuses@,
            final(self).blind_or_straddle_posting_statuses@ == old(
                self,
            ).blind_or_straddle_posting_statuses@,
            final(self).bet_collection_status == old(self).bet_collection_status,
            old(self).same_dealing_duties(*final(self)),
            final(self).completion_betting_or_raising_amount == 0,
            final(self).completion_betting_or_raising_count == 0,
            final(self).acted_player_indices@.len() == old(self).player_count,
            forall|i: int|
                0 <= i < old(self).player_count ==> !(#[trigger] final(self).acted_player_indices@[i]),
            final(self).opener_index matches Option::Some(o) && old(self).spec_opener_at(o as int)
                && final(self).actor_indices@ == old(self).spec_live_range(
                o as int,
                old(self).player_count as int,
            ) + old(self).spec_live_range(0, o as int),
    {
        self.opener_index = Option::None;
        let n = self.player_count;
        self.acted_player_indices = filled_bool(n, false);
        self.completion_betting_or_raising_amount = 0;
        self.completion_betting_or_raising_count = 0;
        let preflop = match self.street_index {
            Option::Some(i) => i == 0,
            Option::None => true,
        };
        // Opening by position: pre-flop the player after the largest
        // pending bet (the big blind or last straddle; ties go to the later
        // position); post-flop the lowest-index active player.
        let mut opener: usize = 0;
        if preflop {
            let mut bb: usize = 0;
            let mut i: usize = 0;
            while i < n
                invariant
                    0 <= i <= n,
                    self.wf(),
                    n == self.player_count,
                    bb < n,
                    (i == 0 && bb == 0) || (bb as int) < i,
                    forall|j: int| 0 <= j < i ==> #[trigger] self.bets@[j] <= self.bets@[bb as int],
                    forall|j: int|
                        (bb as int) < j < i ==> #[trigger] self.bets@[j] < self.bets@[bb as int],
                decreases n - i,
            {
                if self.bets[i] >= self.bets[bb] {
                    bb = i;
                }
                i = i + 1;
            }
            proof {
                assert(old(self).spec_posted_max(bb as int));
            }
            opener = if bb + 1 < n {
                bb + 1
            } else {
                0
            };
            let ghost start = opener as int;
            // Skip eliminated players, wrapping at most once around.
            let mut step: usize = 0;
            while step < n && !self.statuses[opener]
                invariant
                    0 <= step <= n,
                    self.wf(),
                    n == self.player_count,
                    opener < n,
                    0 <= start < n,
                    opener as int == cyc(n as int, start + step),
                    forall|e: int|
                        0 <= e < step ==> !self.statuses@[#[trigger] cyc(n as int, start + e)],
                decreases n - step,
            {
                opener = if opener + 1 < n {
                    opener + 1
                } else {
                    0
                };
                step = step + 1;
            }
            proof {
                if step < n {
                    assert(self.statuses@[opener as int]);
                } else {
                    assert(opener as int == start);
                }
                assert(old(self).spec_opener_at(opener as int));
            }
        } else {
            opener = match first_true(&self.statuses) {
                Option::Some(i) => i,
                Option::None => 0,
            };
            proof {
                assert(old(self).spec_opener_at(opener as int));
            }
        }
        self.opener_index = Option::Some(opener);
        // The queue: active players with chips, cyclically from the opener.
        let mut queue: std::collections::VecDeque<usize> = std::collections::VecDeque::new();
        let mut i: usize = opener;
        proof {
            assert(queue@ =~= self.spec_live_range(opener as int, opener as int));
        }
        while i < n
            invariant
                opener <= i <= n,
                self.wf(),
                n == self.player_count,
                queue@ == self.spec_live_range(opener as int, i as int),
                forall|k: int|
                    0 <= k < queue@.len() ==> {
                        let p = #[trigger] queue@[k];
                        &&& opener <= p < i
                        &&& self.statuses@[p as int]
                        &&& self.stacks@[p as int] > 0
                    },
                forall|k1: int, k2: int|
                    0 <= k1 < k2 < queue@.len() ==> #[trigger] queue@[k1] < #[trigger] queue@[k2],
            decreases n - i,
        {
            if self.statuses[i] && self.stacks[i] > 0 {
                queue.push_back(i);
            }
            i = i + 1;
        }
        let ghost mid = queue@.len();
        let mut j: usize = 0;
        proof {
            assert(queue@ =~= self.spec_live_range(opener as int, n as int)
                + self.spec_live_range(0, 0));
        }
        while j < opener
            invariant
                0 <= j <= opener,
                opener <= n,
                self.wf(),
                n == self.player_count,
                mid <= queue@.len(),
                queue@ == self.spec_live_range(opener as int, n as int) + self.spec_live_range(
                    0,
                    j as int,
                ),
                forall|k: int|
                    0 <= k < mid ==> {
                        let p = #[trigger] queue@[k];
                        &&& opener <= p < n
                        &&& self.statuses@[p as int]
                        &&& self.stacks@[p as int] > 0
                    },
                forall|k: int|
                    mid <= k < queue@.len() ==> {
                        let p = #[trigger] queue@[k];
                        &&& p < j
                        &&& self.statuses@[p as int]
                        &&& self.stacks@[p as int] > 0
                    },
                forall|k1: int, k2: int|
                    0 <= k1 < k2 < queue@.len() && mid <= k2 && mid <= k1 ==> #[trigger] queue@[k1]
                        < #[trigger] queue@[k2],
                forall|k1: int, k2: int|
                    0 <= k1 < k2 < mid ==> #[trigger] queue@[k1] < #[trigger] queue@[k2],
            decreases opener - j,
        {
            if self.statuses[j] && self.stacks[j] > 0 {
                queue.push_back(j);
                proof {
                    assert(queue@ =~= self.spec_live_range(opener as int, n as int)
                        + self.spec_live_range(0, j as int + 1));
                }
            }
            j = j + 1;
        }
        proof {
            assert forall|k1: int, k2: int|
                0 <= k1 < k2 < queue@.len() implies #[trigger] queue@[k1] != #[trigger] queue@[k2] by {
                if k1 < mid && k2 >= mid {
                    assert(queue@[k1] >= opener && queue@[k2] < opener);
                }
            }
        }
        let ghost snap = *self;
        proof {
            assert(queue@ == snap.spec_live_range(opener as int, n as int) + snap.spec_live_range(
                0,
                opener as int,
            ));
            lemma_live_range_congruent(*old(self), snap, opener as int, n as int);
            lemma_live_range_congruent(*old(self), snap, 0, opener as int);
        }
        self.actor_indices = queue;
        self.phase = Phase::Betting;
        proof {
            assert(self.queue_ok());
        }
    }

    /// Leaves the betting phase for bet collection.
    fn end_betting_step(&mut self)
        requires
            old(self).wf(),
        ensures
            final(self).wf(),
            old(self).same_config(*final(self)),
            final(self).phase == Phase::BetCollection,
            final(self).street_index == old(self).street_index,
            old(self).same_chips(*final(self)),
            final(self).statuses@ == old(self).statuses@,
            old(self).same_cards(*final(self)),
            final(self).operations@ == old(self).operations@,
            final(self).ante_posting_statuses@ == old(self).ante_posting_statuses@,
            final(self).blind_or_straddle_posting_statuses@ == old(
                self,
            ).blind_or_straddle_posting_statuses@,
            old(self).same_dealing_duties(*final(self)),
            final(self).actor_indices@.len() == 0,
            final(self).opener_index == old(self).opener_index,
            final(self).acted_player_indices@ == old(self).acted_player_indices@,
            final(self).bet_collection_status == (exists|i: int|
                0 <= i < old(self).player_count && #[trigger] old(self).bets@[i] > 0),
    {
        self.actor_indices = std::collections::VecDeque::new();
        let any = self.any_positive_bet();
        self.bet_collection_status = any;
        self.phase = Phase::BetCollection;
    }

    /// Routes out of bet collection: to the payout phases when at most one
    /// player is left or the last street is done, to blind posting before
    /// the first street, and to the next street's dealing otherwise.
    fn end_bet_collection_step(&mut self)
        requires
            old(self).wf(),
            !old(self).bet_collection_status,
            old(self).phase == Phase::BetCollection,
        ensures
            final(self).wf(),
            old(self).same_config(*final(self)),
            old(self).same_chips(*final(self)),
            final(self).statuses@ == old(self).statuses@,
            old(self).same_cards(*final(self)),
            final(self).operations@ == old(self).operations@,
            final(self).ante_posting_statuses@ == old(self).ante_posting_statuses@,
            old(self).street_index is Some ==> final(self).blind_or_straddle_posting_statuses@
                == old(self).blind_or_straddle_posting_statuses@,
            (final(self).phase == Phase::ChipsPushing && final(self).street_index == old(
                self,
            ).street_index) || (final(self).phase == Phase::Showdown && final(self).street_index
                == old(self).street_index) || (final(self).phase == Phase::BlindOrStraddlePosting
                && final(self).street_index == old(self).street_index) || (final(self).phase
                == Phase::Dealing && final(self).spec_street_units() == old(
                self,
            ).spec_street_units() - 1 && final(self).street_index is Some),
            final(self).opener_index == old(self).opener_index,
            final(self).acted_player_indices@ == old(self).acted_player_indices@,
            count_true(old(self).statuses@) >= 2 ==> final(self).phase != Phase::ChipsPushing,
            old(self).street_index is None && count_true(old(self).statuses@) >= 2 ==> final(self).phase == Phase::BlindOrStraddlePosting && final(self).street_index is None && (forall|
                i: int,
            |
                0 <= i < old(self).player_count ==> #[trigger] final(self).blind_or_straddle_posting_statuses@[i] == (old(self).spec_effective_blind(i)
                    > 0)),
    {
        let active = self.active_count();
        if active <= 1 {
            self.phase = Phase::ChipsPushing;
            return ;
        }
        match self.street_index {
            Option::None => {
                let n = self.player_count;
                let mut i: usize = 0;
                while i < n
                    invariant
                        0 <= i <= n,
                        self.wf(),
                        n == self.player_count,
                        old(self).same_config(*self),
                        old(self).same_chips(*self),
                        self.statuses@ == old(self).statuses@,
                        old(self).same_cards(*self),
                        self.operations@ == old(self).operations@,
                        self.ante_posting_statuses@ == old(self).ante_posting_statuses@,
                        old(self).same_dealing_duties(*self),
                        old(self).same_betting_round(*self),
                        self.phase == old(self).phase,
                        self.street_index == old(self).street_index,
                        self.bet_collection_status == old(self).bet_collection_status,
                        forall|j: int|
                            0 <= j < i ==> #[trigger] self.blind_or_straddle_posting_statuses@[j]
                                == (old(self).spec_effective_blind(j) > 0),
                    decreases n - i,
                {
                    let owes = self.get_effective_blind_or_straddle(i) > 0;
                    proof {
                        assert(self.spec_effective_ante(i as int) == old(self).spec_effective_ante(
                            i as int,
                        ));
                        assert(self.spec_effective_blind(i as int) == old(
                            self,
                        ).spec_effective_blind(i as int));
                    }
                    self.blind_or_straddle_posting_statuses.set(i, owes);
                    i = i + 1;
                }
                self.phase = Phase::BlindOrStraddlePosting;
            },
            Option::Some(i) => {
                proof {
                    assert((i as int) < self.streets@.len());
                }
                if i >= self.streets.len() - 1 {
                    self.phase = Phase::Showdown;
                } else {
                    self.begin_dealing_step();
                }
            },
        }
    }

    /// Whether the dealing phase has nothing left to hand out.
    fn dealing_done(&self) -> (r: bool)
        requires
            self.wf(),
        ensures
            r == (!self.card_burning_status && (forall|i: int|
                0 <= i < self.player_count ==> (#[trigger] self.hole_dealing_statuses@[i])@.len()
                    == 0) && (forall|b: int|
                0 <= b < self.starting_board_count ==> #[trigger] self.board_dealing_counts@[b]
                    == 0) && (forall|i: int|
                0 <= i < self.player_count ==> !(
                #[trigger] self.standing_pat_or_discarding_statuses@[i]))),
    {
        if self.card_burning_status {
            return false;
        }
        match self.hole_dealee_index() {
            Option::Some(_) => {
                return false;
            },
            Option::None => {},
        }
        match self.board_pending_index() {
            Option::Some(_) => {
                return false;
            },
            Option::None => {},
        }
        match first_true(&self.standing_pat_or_discarding_statuses) {
            Option::Some(_) => {
                return false;
            },
            Option::None => {},
        }
        true
    }

    /// Runs every automated deterministic step until the hand needs a
    /// decision from a player or an explicit call, or reaches its payout
    /// phases: the returned state is at rest. The pass never touches a
    /// player's standing, and moves chips or cards only through the
    /// enabled automations.
    #[verifier::loop_isolation(false)]
    fn advance(&mut self)
        requires
            old(self).wf(),
        ensures
            final(self).wf(),
            old(self).same_config(*final(self)),
            final(self).at_rest(),
            final(self).statuses@ == old(self).statuses@,
            final(self).mucked_cards@ == old(self).mucked_cards@,
            final(self).discarded_cards@ == old(self).discarded_cards@,
            final(self).operations@.len() >= old(self).operations@.len(),
            forall|i: int|
                0 <= i < old(self).operations@.len() ==> #[trigger] final(self).operations@[i]
                    == old(self).operations@[i],
            old(self).spec_manual_chips() ==> {
                &&& final(self).bets@ == old(self).bets@
                &&& final(self).stacks@ == old(self).stacks@
                &&& final(self).payoffs@ == old(self).payoffs@
                &&& final(self).ante_posting_statuses@ == old(self).ante_posting_statuses@
            },
            old(self).spec_manual_dealing() ==> {
                &&& final(self).deck_cards@ == old(self).deck_cards@
                &&& final(self).hole_cards@ == old(self).hole_cards@
                &&& final(self).hole_card_statuses@ == old(self).hole_card_statuses@
                &&& final(self).board_cards@ == old(self).board_cards@
                &&& final(self).burn_cards@ == old(self).burn_cards@
            },
            old(self).spec_manual_chips() && old(self).spec_manual_dealing() ==> final(self).operations@ == old(self).operations@,
            old(self).spec_manual_chips() && (old(self).phase == Phase::BlindOrStraddlePosting
                || old(self).street_index is Some) ==> final(self).blind_or_straddle_posting_statuses@ == old(self).blind_or_straddle_posting_statuses@,
            (old(self).spec_manual_chips() && old(self).phase == Phase::AntePosting && old(
                self,
            ).street_index is None && (forall|i: int|
                0 <= i < old(self).player_count ==> #[trigger] old(self).bets@[i] == 0i64)
                && count_true(old(self).statuses@) >= 2 && ((exists|i: int|
                0 <= i < old(self).player_count && #[trigger] old(self).ante_posting_statuses@[i])
                || (exists|i: int|
                0 <= i < old(self).player_count && old(self).spec_effective_blind(i) > 0)))
                ==> final(self).street_index is None,
            (old(self).phase == Phase::Betting && old(self).spec_manual_chips() && exists|i: int|
                0 <= i < old(self).player_count && #[trigger] old(self).bets@[i] > 0) ==> {
                &&& final(self).opener_index == old(self).opener_index
                &&& final(self).acted_player_indices@ == old(self).acted_player_indices@
                &&& ((final(self).phase == Phase::Betting && final(self).actor_indices@ == old(
                    self,
                ).actor_indices@) || (final(self).phase == Phase::BetCollection && final(self).bet_collection_status && final(self).actor_indices@.len() == 0))
            },
    {
        let ghost p_raise = old(self).phase == Phase::Betting && old(self).spec_manual_chips()
            && exists|i: int| 0 <= i < old(self).player_count && #[trigger] old(self).bets@[i] > 0;
        let ghost p_pre = old(self).spec_manual_chips() && old(self).phase == Phase::AntePosting
            && old(self).street_index is None && (forall|i: int|
            0 <= i < old(self).player_count ==> #[trigger] old(self).bets@[i] == 0i64)
            && count_true(old(self).statuses@) >= 2 && ((exists|i: int|
            0 <= i < old(self).player_count && #[trigger] old(self).ante_posting_statuses@[i])
            || (exists|i: int|
            0 <= i < old(self).player_count && old(self).spec_effective_blind(i) > 0));
        let ghost p_blind = old(self).spec_manual_chips() && (old(self).phase
            == Phase::BlindOrStraddlePosting || old(self).street_index is Some);
        loop
            invariant
                self.wf(),
                old(self).same_config(*self),
                self.statuses@ == old(self).statuses@,
                self.mucked_cards@ == old(self).mucked_cards@,
                self.discarded_cards@ == old(self).discarded_cards@,
                self.operations@.len() >= old(self).operations@.len(),
                forall|i: int|
                    0 <= i < old(self).operations@.len() ==> #[trigger] self.operations@[i] == old(
                        self,
                    ).operations@[i],
                old(self).spec_manual_chips() ==> {
                    &&& self.bets@ == old(self).bets@
                    &&& self.stacks@ == old(self).stacks@
                    &&& self.payoffs@ == old(self).payoffs@
                    &&& self.ante_posting_statuses@ == old(self).ante_posting_statuses@
                },
                old(self).spec_manual_dealing() ==> {
                    &&& self.deck_cards@ == old(self).deck_cards@
                    &&& self.hole_cards@ == old(self).hole_cards@
                    &&& self.hole_card_statuses@ == old(self).hole_card_statuses@
                    &&& self.board_cards@ == old(self).board_cards@
                    &&& self.burn_cards@ == old(self).burn_cards@
                },
                old(self).spec_manual_chips() && old(self).spec_manual_dealing()
                    ==> self.operations@ == old(self).operations@,
                p_blind ==> (self.blind_or_straddle_posting_statuses@ == old(
                    self,
                ).blind_or_straddle_posting_statuses@ && (self.phase
                    == Phase::BlindOrStraddlePosting || self.street_index is Some)),
                p_pre ==> {
                    &&& self.street_index is None
                    &&& ((self.phase == Phase::AntePosting) || (self.phase == Phase::BetCollection
                        && !self.bet_collection_status && exists|i: int|
                        0 <= i < old(self).player_count && old(self).spec_effective_blind(i) > 0)
                        || (self.phase == Phase::BlindOrStraddlePosting && exists|i: int|
                        0 <= i < old(self).player_count
                            && #[trigger] self.blind_or_straddle_posting_statuses@[i]))
                },
                p_raise ==> {
                    &&& self.opener_index == old(self).opener_index
                    &&& self.acted_player_indices@ == old(self).acted_player_indices@
                    &&& ((self.phase == Phase::Betting && self.actor_indices@ == old(
                        self,
                    ).actor_indices@) || (self.phase == Phase::BetCollection
                        && self.bet_collection_status && self.actor_indices@.len() == 0))
                },
            decreases self.spec_street_units(), self.spec_phase_rank(), self.spec_phase_pending(),
        {
            proof {
                lemma_count_true_nonneg(self.ante_posting_statuses@);
                lemma_count_true_nonneg(self.blind_or_straddle_posting_statuses@);
                lemma_sum_deal_lens_nonneg(self.hole_dealing_statuses@);
                lemma_sum_usize_nonneg(self.board_dealing_counts@);
            }
            let ghost pre = *self;
            match self.phase {
                Phase::AntePosting => {
                    match first_true(&self.ante_posting_statuses) {
                        Option::Some(p) => {
                            if self.has_automation(Automation::AntePosting) {
                                let _ = self.do_post_ante(p, Option::None);
                                proof {
                                    lemma_count_true_clear(pre.ante_posting_statuses@, p as int);
                                }
                            } else {
                                return ;
                            }
                        },
                        Option::None => {
                            let any = self.any_positive_bet();
                            self.bet_collection_status = any;
                            self.phase = Phase::BetCollection;
                        },
                    }
                },
                Phase::BetCollection => {
                    if self.bet_collection_status {
                        if self.has_automation(Automation::BetCollection) {
                            let _ = self.do_collect_bets(Option::None);
                        } else {
                            return ;
                        }
                    } else {
                        self.end_bet_collection_step();
                        proof {
                            if p_pre {
                                assert forall|i: int|
                                    0 <= i < old(self).player_count implies pre.spec_effective_blind(
                                    i,
                                ) == old(self).spec_effective_blind(i) by {
                                    assert(pre.spec_effective_ante(i) == old(
                                        self,
                                    ).spec_effective_ante(i));
                                }
                                let w = choose|i: int|
                                    0 <= i < old(self).player_count && old(
                                        self,
                                    ).spec_effective_blind(i) > 0;
                                assert(self.blind_or_straddle_posting_statuses@[w]);
                            }
                        }
                        if matches!(self.phase, Phase::Showdown) || matches!(
                            self.phase,
                            Phase::ChipsPushing,
                        ) {
                            return ;
                        }
                    }
                },
                Phase::BlindOrStraddlePosting => {
                    match first_true(&self.blind_or_straddle_posting_statuses) {
                        Option::Some(p) => {
                            if self.has_automation(Automation::BlindOrStraddlePosting) {
                                let _ = self.do_post_blind(p, Option::None);
                                proof {
                                    lemma_count_true_clear(
                                        pre.blind_or_straddle_posting_statuses@,
                                        p as int,
                                    );
                                }
                            } else {
                                return ;
                            }
                        },
                        Option::None => {
                            self.begin_dealing_step();
                        },
                    }
                },
                Phase::Dealing => {
                    if self.dealing_done() {
                        self.begin_betting_step();
                    } else if self.card_burning_status {
                        if self.has_automation(Automation::CardBurning)
                            && self.deck_cards.len() > 0 {
                            let _ = self.do_burn_card(Option::None, Option::None);
                        } else {
                            return ;
                        }
                    } else {
                        let dealee = self.hole_dealee_index();
                        match dealee {
                            Option::Some(p) => {
                                if self.has_automation(Automation::HoleDealing)
                                    && self.deck_cards.len() > 0 {
                                    let _ = self.do_deal_hole_one(p, Option::None);
                                    proof {
                                        lemma_sum_deal_lens_shorten(
                                            pre.hole_dealing_statuses@,
                                            self.hole_dealing_statuses@,
                                            p as int,
                                        );
                                    }
                                } else {
                                    return ;
                                }
                            },
                            Option::None => {
                                match self.board_pending_index() {
                                    Option::Some(b) => {
                                        if self.has_automation(Automation::BoardDealing)
                                            && self.deck_cards.len()
                                            >= self.board_dealing_counts[b] {
                                            let _ = self.do_deal_board(b, Option::None);
                                            proof {
                                                lemma_sum_usize_update(
                                                    pre.board_dealing_counts@,
                                                    b as int,
                                                    0usize,
                                                );
                                            }
                                        } else {
                                            return ;
                                        }
                                    },
                                    Option::None => {
                                        // Only standing-pat decisions remain;
                                        // those are the players' own.
                                        return ;
                                    },
                                }
                            },
                        }
                    }
                },
                Phase::Betting => {
                    let active = self.active_count();
                    if active <= 1 {
                        self.end_betting_step();
                    } else if self.betting_round_done() {
                        self.end_betting_step();
                    } else {
                        return ;
                    }
                },
                Phase::Showdown => {
                    return ;
                },
                Phase::ChipsPushing => {
                    return ;
                },
            }
            proof {
                lemma_count_true_nonneg(self.ante_posting_statuses@);
                lemma_count_true_nonneg(self.blind_or_straddle_posting_statuses@);
                lemma_sum_deal_lens_nonneg(self.hole_dealing_statuses@);
                lemma_sum_usize_nonneg(self.board_dealing_counts@);
            }
        }
    }
}


impl State {
    /// Posts an ante for the given player (or the first player owing one).
    /// Succeeds exactly when the hand is posting antes and the player owes
    /// one; the state is unchanged on error.
    pub fn post_ante(&mut self, player_index: Option<usize>, commentary: Option<String>) -> (r:
        Result<AntePosting, StateError>)
        requires
            old(self).wf(),
        ensures
            final(self).wf(),
            old(self).same_config(*final(self)),
            r is Err ==> *final(self) == *old(self),
            r is Ok ==> final(self).at_rest(),
            final(self).statuses@ == old(self).statuses@,
            r matches Ok(op) ==> {
                &&& old(self).phase == Phase::AntePosting
                &&& (op.player_index as int) < old(self).player_count
                &&& old(self).ante_posting_statuses@[op.player_index as int]
                &&& (player_index matches Option::Some(p) ==> op.player_index == p)
                &&& op.amount as int == (if old(self).spec_effective_ante(op.player_index as int)
                    <= old(self).stacks@[op.player_index as int] {
                    old(self).spec_effective_ante(op.player_index as int)
                } else {
                    old(self).stacks@[op.player_index as int] as int
                })
                &&& final(self).operations@.len() > old(self).operations@.len()
                &&& (forall|i: int|
                    0 <= i < old(self).operations@.len() ==> #[trigger] final(self).operations@[i]
                        == old(self).operations@[i])
                &&& (final(self).operations@[old(self).operations@.len() as int]
                    matches Operation::AntePosting(o) && o.player_index == op.player_index
                    && o.amount == op.amount)
                &&& (old(self).spec_manual_chips() ==> {
                    &&& final(self).bets@ == old(self).bets@.update(
                        op.player_index as int,
                        (old(self).bets@[op.player_index as int] + op.amount) as i64,
                    )
                    &&& final(self).stacks@ == old(self).stacks@.update(
                        op.player_index as int,
                        (old(self).stacks@[op.player_index as int] - op.amount) as i64,
                    )
                    &&& final(self).payoffs@ == old(self).payoffs@
                    &&& final(self).ante_posting_statuses@ == old(
                        self,
                    ).ante_posting_statuses@.update(op.player_index as int, false)
                })
            },
            r is Err <==> !(old(self).phase == Phase::AntePosting && (match player_index {
                Option::Some(p) => (p as int) < old(self).player_count && old(
                    self,
                ).ante_posting_statuses@[p as int],
                Option::None => exists|i: int|
                    0 <= i < old(self).player_count && #[trigger] old(
                        self,
                    ).ante_posting_statuses@[i],
            })),
    {
        if !matches!(self.phase, Phase::AntePosting) {
            return Err(StateError::IllegalAction);
        }
        let p = match player_index {
            Option::Some(p) => {
                if p >= self.player_count || !self.ante_posting_statuses[p] {
                    return Err(StateError::IllegalAction);
                }
                p
            },
            Option::None => {
                match first_true(&self.ante_posting_statuses) {
                    Option::Some(p) => p,
                    Option::None => {
                        return Err(StateError::IllegalAction);
                    },
                }
            },
        };
        let op = self.do_post_ante(p, commentary);
        self.advance();
        Ok(op)
    }

    /// Posts a blind or straddle for the given player (or the first player
    /// owing one). Succeeds exactly when the hand is posting blinds and the
    /// player owes one; the state is unchanged on error.
    pub fn post_blind_or_straddle(
        &mut self,
        player_index: Option<usize>,
        commentary: Option<String>,
    ) -> (r: Result<BlindOrStraddlePosting, StateError>)
        requires
            old(self).wf(),
        ensures
            final(self).wf(),
            old(self).same_config(*final(self)),
            r is Err ==> *final(self) == *old(self),
            r is Ok ==> final(self).at_rest(),
            final(self).statuses@ == old(self).statuses@,
            r matches Ok(op) ==> {
                &&& old(self).phase == Phase::BlindOrStraddlePosting
                &&& (op.player_index as int) < old(self).player_count
                &&& old(self).blind_or_straddle_posting_statuses@[op.player_index as int]
                &&& (player_index matches Option::Some(p) ==> op.player_index == p)
                &&& 0 <= op.amount
                &&& op.amount as int <= old(self).spec_effective_blind(op.player_index as int)
                &&& (op.amount as int == old(self).spec_effective_blind(op.player_index as int)
                    || op.amount == old(self).stacks@[op.player_index as int])
                &&& final(self).operations@.len() > old(self).operations@.len()
                &&& (forall|i: int|
                    0 <= i < old(self).operations@.len() ==> #[trigger] final(self).operations@[i]
                        == old(self).operations@[i])
                &&& (final(self).operations@[old(self).operations@.len() as int]
                    matches Operation::BlindOrStraddlePosting(o) && o.player_index
                    == op.player_index && o.amount == op.amount)
                &&& (old(self).spec_manual_chips() ==> {
                    &&& final(self).bets@ == old(self).bets@.update(
                        op.player_index as int,
                        (old(self).bets@[op.player_index as int] + op.amount) as i64,
                    )
                    &&& final(self).stacks@ == old(self).stacks@.update(
                        op.player_index as int,
                        (old(self).stacks@[op.player_index as int] - op.amount) as i64,
                    )
                    &&& final(self).payoffs@ == old(self).payoffs@
                    &&& final(self).blind_or_straddle_posting_statuses@ == old(
                        self,
                    ).blind_or_straddle_posting_statuses@.update(op.player_index as int, false)
                })
            },
            r is Err <==> !(old(self).phase == Phase::BlindOrStraddlePosting && (match player_index {
                Option::Some(p) => (p as int) < old(self).player_count && old(
                    self,
                ).blind_or_straddle_posting_statuses@[p as int],
                Option::None => exists|i: int|
                    0 <= i < old(self).player_count && #[trigger] old(
                        self,
                    ).blind_or_straddle_posting_statuses@[i],
            })),
    {
        if !matches!(self.phase, Phase::BlindOrStraddlePosting) {
            return Err(StateError::IllegalAction);
        }
        let p = match player_index {
            Option::Some(p) => {
                if p >= self.player_count || !self.blind_or_straddle_posting_statuses[p] {
                    return Err(StateError::IllegalAction);
                }
                p
            },
            Option::None => {
                match first_true(&self.blind_or_straddle_posting_statuses) {
                    Option::Some(p) => p,
                    Option::None => {
                        return Err(StateError::IllegalAction);
                    },
                }
            },
        };
        let op = self.do_post_blind(p, commentary);
        self.advance();
        Ok(op)
    }

    /// Sweeps the pending bets into the pot. Succeeds exactly when a
    /// collection is due; the state is unchanged on error.
    pub fn collect_bets(&mut self, commentary: Option<String>) -> (r: Result<
        BetCollection,
        StateError,
    >)
        requires
            old(self).wf(),
        ensures
            final(self).wf(),
            old(self).same_config(*final(self)),
            r is Err ==> *final(self) == *old(self),
            r is Err <==> !old(self).bet_collection_status,
            r is Ok ==> final(self).at_rest(),
            final(self).statuses@ == old(self).statuses@,
            r matches Ok(op) ==> {
                &&& op.bets@ == old(self).bets@
                &&& final(self).operations@.len() > old(self).operations@.len()
                &&& (forall|i: int|
                    0 <= i < old(self).operations@.len() ==> #[trigger] final(self).operations@[i]
                        == old(self).operations@[i])
                &&& (final(self).operations@[old(self).operations@.len() as int]
                    matches Operation::BetCollection(o) && o.bets@ == old(self).bets@)
                &&& (old(self).spec_manual_chips() ==> {
                    &&& (forall|i: int|
                        0 <= i < old(self).player_count ==> #[trigger] final(self).bets@[i]
                            == 0i64)
                    &&& (forall|i: int|
                        0 <= i < old(self).player_count ==> #[trigger] final(self).payoffs@[i]
                            == old(self).payoffs@[i] - old(self).bets@[i])
                    &&& final(self).stacks@ == old(self).stacks@
                })
                &&& (old(self).spec_manual_dealing() ==> old(self).same_cards(*final(self)))
            },
    {
        if !self.bet_collection_status {
            return Err(StateError::IllegalAction);
        }
        let op = self.do_collect_bets(commentary);
        self.advance();
        Ok(op)
    }

    /// Burns a card: the given one, or the top of the deck. Succeeds
    /// exactly when a burn is due and a card is available; the state is
    /// unchanged on error.
    pub fn burn_card(&mut self, card: Option<Card>, commentary: Option<String>) -> (r: Result<
        CardBurning,
        StateError,
    >)
        requires
            old(self).wf(),
        ensures
            final(self).wf(),
            old(self).same_config(*final(self)),
            r is Err ==> *final(self) == *old(self),
            r is Err <==> !(old(self).card_burning_status && (card is Some || old(
                self,
            ).deck_cards@.len() > 0)),
            r is Ok ==> final(self).at_rest(),
            final(self).statuses@ == old(self).statuses@,
            r matches Ok(op) ==> {
                &&& op.card == (match card {
                    Option::Some(c) => c,
                    Option::None => old(self).deck_cards@[0],
                })
                &&& final(self).operations@.len() > old(self).operations@.len()
                &&& (forall|i: int|
                    0 <= i < old(self).operations@.len() ==> #[trigger] final(self).operations@[i]
                        == old(self).operations@[i])
                &&& (final(self).operations@[old(self).operations@.len() as int]
                    matches Operation::CardBurning(o) && o.card == op.card)
                &&& (old(self).spec_manual_dealing() ==> {
                    &&& final(self).burn_cards@ == old(self).burn_cards@.push(op.card)
                    &&& final(self).deck_cards@ == (if card is Some {
                        old(self).deck_cards@
                    } else {
                        old(self).deck_cards@.skip(1)
                    })
                    &&& final(self).hole_cards@ == old(self).hole_cards@
                    &&& final(self).board_cards@ == old(self).board_cards@
                })
            },
    {
        if !self.card_burning_status {
            return Err(StateError::IllegalAction);
        }
        if matches!(card, Option::None) && self.deck_cards.len() == 0 {
            return Err(StateError::ExhaustedDeck);
        }
        let op = self.do_burn_card(card, commentary);
        self.advance();
        Ok(op)
    }

    /// Deals the next hole card from the deck, to the given player or to
    /// the one owed the most cards. Succeeds exactly when that player has a
    /// card coming and the deck is not empty; the state is unchanged on
    /// error.
    pub fn deal_hole(&mut self, player_index: Option<usize>, commentary: Option<String>) -> (r:
        Result<HoleDealing, StateError>)
        requires
            old(self).wf(),
        ensures
            final(self).wf(),
            old(self).same_config(*final(self)),
            r is Err ==> *final(self) == *old(self),
            r is Err <==> !((match player_index {
                Option::Some(p) => (p as int) < old(self).player_count && old(
                    self,
                ).hole_dealing_statuses@[p as int]@.len() > 0,
                Option::None => exists|i: int|
                    0 <= i < old(self).player_count && (#[trigger] old(
                        self,
                    ).hole_dealing_statuses@[i])@.len() > 0,
            }) && old(self).deck_cards@.len() > 0),
            r is Ok ==> final(self).at_rest(),
            final(self).statuses@ == old(self).statuses@,
            r matches Ok(op) ==> {
                &&& (op.player_index as int) < old(self).player_count
                &&& old(self).hole_dealing_statuses@[op.player_index as int]@.len() > 0
                &&& (player_index matches Option::Some(p) ==> op.player_index == p)
                &&& (player_index is None ==> forall|i: int|
                    0 <= i < old(self).player_count && i != op.player_index ==> ((#[trigger] old(
                        self,
                    ).hole_dealing_statuses@[i])@.len() < old(
                        self,
                    ).hole_dealing_statuses@[op.player_index as int]@.len() || (old(
                        self,
                    ).hole_dealing_statuses@[i]@.len() == old(
                        self,
                    ).hole_dealing_statuses@[op.player_index as int]@.len() && i
                        > op.player_index)))
                &&& op.cards@ == seq![old(self).deck_cards@[0]]
                &&& op.statuses@ == seq![old(self).hole_dealing_statuses@[op.player_index as int]@[0]]
                &&& final(self).operations@.len() > old(self).operations@.len()
                &&& (forall|i: int|
                    0 <= i < old(self).operations@.len() ==> #[trigger] final(self).operations@[i]
                        == old(self).operations@[i])
                &&& (final(self).operations@[old(self).operations@.len() as int]
                    matches Operation::HoleDealing(o) && o.player_index == op.player_index
                    && o.cards@ == op.cards@ && o.statuses@ == op.statuses@)
                &&& (old(self).spec_manual_dealing() ==> {
                    &&& final(self).deck_cards@ == old(self).deck_cards@.skip(1)
                    &&& final(self).hole_cards@[op.player_index as int]@ == old(
                        self,
                    ).hole_cards@[op.player_index as int]@.push(old(self).deck_cards@[0])
                    &&& (forall|i: int|
                        0 <= i < old(self).player_count && i != op.player_index ==> (
                        #[trigger] final(self).hole_cards@[i])@ == old(self).hole_cards@[i]@)
                    &&& final(self).hole_card_statuses@[op.player_index as int]@ == old(
                        self,
                    ).hole_card_statuses@[op.player_index as int]@.push(
                        old(self).hole_dealing_statuses@[op.player_index as int]@[0],
                    )
                    &&& final(self).board_cards@ == old(self).board_cards@
                })
            },
    {
        let p = match player_index {
            Option::Some(p) => {
                if p >= self.player_count || self.hole_dealing_statuses[p].len() == 0 {
                    return Err(StateError::IllegalAction);
                }
                p
            },
            Option::None => {
                match self.hole_dealee_index() {
                    Option::Some(p) => p,
                    Option::None => {
                        return Err(StateError::IllegalAction);
                    },
                }
            },
        };
        if self.deck_cards.len() == 0 {
            return Err(StateError::ExhaustedDeck);
        }
        let op = self.do_deal_hole_one(p, commentary);
        self.advance();
        Ok(op)
    }

    /// Deals a board's outstanding cards from the deck. Succeeds exactly
    /// when some board is owed cards and the deck holds enough; the state
    /// is unchanged on error.
    pub fn deal_board(&mut self, commentary: Option<String>) -> (r: Result<
        BoardDealing,
        StateError,
    >)
        requires
            old(self).wf(),
        ensures
            final(self).wf(),
            old(self).same_config(*final(self)),
            r is Err ==> *final(self) == *old(self),
            r is Ok <==> exists|b: int|
                0 <= b < old(self).starting_board_count && #[trigger] old(
                    self,
                ).board_dealing_counts@[b] > 0 && (forall|j: int|
                    0 <= j < b ==> old(self).board_dealing_counts@[j] == 0) && old(
                    self,
                ).deck_cards@.len() >= old(self).board_dealing_counts@[b],
            r is Ok ==> final(self).at_rest(),
            final(self).statuses@ == old(self).statuses@,
            r matches Ok(op) ==> exists|b: int|
                {
                    &&& 0 <= b < old(self).starting_board_count
                    &&& #[trigger] old(self).board_dealing_counts@[b] > 0
                    &&& (forall|j: int| 0 <= j < b ==> old(self).board_dealing_counts@[j] == 0)
                    &&& op.cards@ == old(self).deck_cards@.take(
                        old(self).board_dealing_counts@[b] as int,
                    )
                    &&& final(self).operations@.len() > old(self).operations@.len()
                    &&& (forall|i: int|
                        0 <= i < old(self).operations@.len() ==> #[trigger] final(self).operations@[i] == old(self).operations@[i])
                    &&& (final(self).operations@[old(self).operations@.len() as int]
                        matches Operation::BoardDealing(o) && o.cards@ == op.cards@)
                    &&& (old(self).spec_manual_dealing() ==> {
                        &&& final(self).deck_cards@ == old(self).deck_cards@.skip(
                            old(self).board_dealing_counts@[b] as int,
                        )
                        &&& final(self).board_cards@[b]@ == old(self).board_cards@[b]@
                            + op.cards@
                        &&& (forall|i: int|
                            0 <= i < old(self).starting_board_count && i != b ==> (
                            #[trigger] final(self).board_cards@[i])@ == old(
                                self,
                            ).board_cards@[i]@)
                        &&& final(self).hole_cards@ == old(self).hole_cards@
                    })
                },
    {
        let b = match self.board_pending_index() {
            Option::Some(b) => b,
            Option::None => {
                return Err(StateError::IllegalAction);
            },
        };
        if self.deck_cards.len() < self.board_dealing_counts[b] {
            return Err(StateError::ExhaustedDeck);
        }
        let op = self.do_deal_board(b, commentary);
        self.advance();
        Ok(op)
    }

    /// Folds the acting player out of the hand: the player leaves the
    /// queue, goes inactive, and the hole cards hit the muck. Succeeds
    /// exactly when someone is due to act; the state is unchanged on error.
    pub fn fold(&mut self, commentary: Option<String>) -> (r: Result<Folding, StateError>)
        requires
            old(self).wf(),
        ensures
            final(self).wf(),
            old(self).same_config(*final(self)),
            r is Err ==> *final(self) == *old(self),
            r is Err <==> old(self).actor_indices@.len() == 0,
            r is Ok ==> final(self).at_rest(),
            r matches Ok(op) ==> {
                &&& op.player_index == old(self).actor_indices@[0]
                &&& (op.player_index as int) < old(self).player_count
                &&& final(self).statuses@ == old(self).statuses@.update(
                    op.player_index as int,
                    false,
                )
                &&& final(self).mucked_cards@ == old(self).mucked_cards@ + old(
                    self,
                ).hole_cards@[op.player_index as int]@
                &&& final(self).operations@.len() > old(self).operations@.len()
                &&& (forall|i: int|
                    0 <= i < old(self).operations@.len() ==> #[trigger] final(self).operations@[i]
                        == old(self).operations@[i])
                &&& (final(self).operations@[old(self).operations@.len() as int]
                    matches Operation::Folding(o) && o.player_index == op.player_index)
                &&& (forall|k: int|
                    0 <= k < final(self).actor_indices@.len() ==> #[trigger] final(self).actor_indices@[k] != op.player_index)
                &&& (old(self).spec_manual_chips() ==> final(self).bets@ == old(self).bets@
                    && final(self).stacks@ == old(self).stacks@ && final(self).payoffs@ == old(
                    self,
                ).payoffs@)
                &&& (old(self).spec_manual_dealing() ==> final(self).hole_cards@[op.player_index as int]@.len() == 0 && (forall|i: int|
                    0 <= i < old(self).player_count && i != op.player_index ==> (#[trigger] final(self).hole_cards@[i])@ == old(self).hole_cards@[i]@))
                &&& ((old(self).spec_manual_chips() && exists|i: int|
                    0 <= i < old(self).player_count && #[trigger] old(self).bets@[i] > 0)
                    ==> final(self).acted_player_indices@ == old(
                    self,
                ).acted_player_indices@.update(op.player_index as int, true))
            },
    {
        if self.actor_indices.len() == 0 {
            return Err(StateError::IllegalAction);
        }
        let p = match self.actor_indices.pop_front() {
            Option::Some(p) => p,
            Option::None => {
                proof {
                    assert(false);
                }
                0
            },
        };
        proof {
            assert((p as int) < self.player_count);
        }
        self.acted_player_indices.set(p, true);
        self.statuses.set(p, false);
        let mut mucked = self.hole_cards[p].clone();
        proof {
            assert(mucked@ =~= self.hole_cards@[p as int]@);
        }
        self.mucked_cards.append(&mut mucked);
        self.hole_cards.set(p, Vec::new());
        let commentary_log: Option<String> = match &commentary {
            Option::Some(c) => Option::Some(c.clone()),
            Option::None => Option::None,
        };
        self.operations.push(
            Operation::Folding(Folding { player_index: p, commentary: commentary_log }),
        );
        let op = Folding { player_index: p, commentary };
        proof {
            assert(self.queue_ok()) by {
                assert(forall|k: int|
                    0 <= k < self.actor_indices@.len() ==> #[trigger] self.actor_indices@[k]
                        == old(self).actor_indices@[k + 1]);
            }
            assert(self.phase == Phase::Betting);
            if exists|i: int| 0 <= i < old(self).player_count && #[trigger] old(self).bets@[i]
                > 0 {
                let w = choose|i: int|
                    0 <= i < old(self).player_count && #[trigger] old(self).bets@[i] > 0;
                assert(self.bets@[w] > 0);
            }
        }
        self.advance();
        proof {
            assert forall|k: int|
                0 <= k < self.actor_indices@.len() implies #[trigger] self.actor_indices@[k]
                != p by {
                assert(self.statuses@[self.actor_indices@[k] as int]);
            }
        }
        Ok(op)
    }

    /// Checks or calls: the acting player matches the highest pending bet
    /// as far as the stack allows (an all-in call leaves the stack empty).
    /// Succeeds exactly when someone is due to act; the state is unchanged
    /// on error.
    pub fn check_or_call(&mut self, commentary: Option<String>) -> (r: Result<
        CheckingOrCalling,
        StateError,
    >)
        requires
            old(self).wf(),
        ensures
            final(self).wf(),
            old(self).same_config(*final(self)),
            r is Err ==> *final(self) == *old(self),
            r is Err <==> old(self).actor_indices@.len() == 0,
            r is Ok ==> final(self).at_rest(),
            final(self).statuses@ == old(self).statuses@,
            r matches Ok(op) ==> {
                &&& op.player_index == old(self).actor_indices@[0]
                &&& (op.player_index as int) < old(self).player_count
                &&& op.amount as int == {
                    let gap = if seq_max0(old(self).bets@) >= old(
                        self,
                    ).bets@[op.player_index as int] {
                        seq_max0(old(self).bets@) - old(self).bets@[op.player_index as int]
                    } else {
                        0
                    };
                    if gap <= old(self).stacks@[op.player_index as int] {
                        gap
                    } else {
                        old(self).stacks@[op.player_index as int] as int
                    }
                }
                &&& final(self).operations@.len() > old(self).operations@.len()
                &&& (forall|i: int|
                    0 <= i < old(self).operations@.len() ==> #[trigger] final(self).operations@[i]
                        == old(self).operations@[i])
                &&& (final(self).operations@[old(self).operations@.len() as int]
                    matches Operation::CheckingOrCalling(o) && o.player_index == op.player_index
                    && o.amount == op.amount)
                &&& (old(self).spec_manual_chips() ==> {
                    &&& final(self).bets@ == old(self).bets@.update(
                        op.player_index as int,
                        (old(self).bets@[op.player_index as int] + op.amount) as i64,
                    )
                    &&& final(self).stacks@ == old(self).stacks@.update(
                        op.player_index as int,
                        (old(self).stacks@[op.player_index as int] - op.amount) as i64,
                    )
                    &&& final(self).payoffs@ == old(self).payoffs@
                })
                &&& ((old(self).spec_manual_chips() && exists|i: int|
                    0 <= i < old(self).player_count && #[trigger] old(self).bets@[i] > 0)
                    ==> final(self).acted_player_indices@ == old(
                    self,
                ).acted_player_indices@.update(op.player_index as int, true))
            },
    {
        if self.actor_indices.len() == 0 {
            return Err(StateError::IllegalAction);
        }
        let p = match self.actor_indices.pop_front() {
            Option::Some(p) => p,
            Option::None => {
                proof {
                    assert(false);
                }
                0
            },
        };
        proof {
            assert((p as int) < self.player_count);
        }
        let max_bet = self.max_bet();
        proof {
            lemma_sum_bounds_elem(self.bets@, p as int);
            lemma_sum_bounds_elem(self.stacks@, p as int);
            lemma_sum_nonneg(self.bets@);
            lemma_sum_nonneg(self.stacks@);
            lemma_sum_neg(self.payoffs@);
        }
        let gap = if max_bet >= self.bets[p] {
            max_bet - self.bets[p]
        } else {
            0
        };
        let amount = if gap <= self.stacks[p] {
            gap
        } else {
            self.stacks[p]
        };
        let old_bet = self.bets[p];
        proof {
            if max_bet > 0 {
                let j = choose|j: int|
                    0 <= j < self.player_count && #[trigger] self.bets@[j] == max_bet;
                lemma_sum_bounds_elem(self.bets@, j);
            }
            lemma_sum_update(self.bets@, p as int, (old_bet + amount) as i64);
            lemma_sum_update(self.stacks@, p as int, (self.stacks@[p as int] - amount) as i64);
        }
        self.bets.set(p, old_bet + amount);
        let new_stack = self.stacks[p] - amount;
        self.stacks.set(p, new_stack);
        self.acted_player_indices.set(p, true);
        let commentary_log: Option<String> = match &commentary {
            Option::Some(c) => Option::Some(c.clone()),
            Option::None => Option::None,
        };
        self.operations.push(
            Operation::CheckingOrCalling(
                CheckingOrCalling { player_index: p, amount, commentary: commentary_log },
            ),
        );
        let op = CheckingOrCalling { player_index: p, amount, commentary };
        proof {
            assert(self.queue_ok()) by {
                assert(forall|k: int|
                    0 <= k < self.actor_indices@.len() ==> #[trigger] self.actor_indices@[k]
                        == old(self).actor_indices@[k + 1]);
            }
            assert(self.phase == Phase::Betting);
            if exists|i: int| 0 <= i < old(self).player_count && #[trigger] old(self).bets@[i]
                > 0 {
                let w = choose|i: int|
                    0 <= i < old(self).player_count && #[trigger] old(self).bets@[i] > 0;
                assert(self.bets@[w] > 0);
            }
        }
        self.advance();
        Ok(op)
    }
}


impl State {
    /// The chips already in the middle: everything collected plus the
    /// pending bets (what a pot-limit raise may grow by).
    fn middle_total(&self) -> (r: i64)
        requires
            self.wf(),
        ensures
            r as int == sum_i64(self.bets@) - sum_i64(self.payoffs@),
            r >= 0,
    {
        // From conservation, bets minus payoffs is the starting total less
        // the stacks; both totals fit comfortably.
        let mut total_bets: i64 = 0;
        let mut i: usize = 0;
        proof {
            assert(self.bets@.take(0) =~= Seq::<i64>::empty());
        }
        while i < self.player_count
            invariant
                0 <= i <= self.player_count,
                self.wf(),
                total_bets as int == sum_i64(self.bets@.take(i as int)),
                total_bets >= 0,
            decreases self.player_count - i,
        {
            proof {
                lemma_sum_take_push(self.bets@, i as int);
                lemma_sum_take_monotone_gen(self.bets@, i as int + 1);
                lemma_sum_nonneg(self.bets@);
                lemma_sum_nonneg(self.stacks@);
                lemma_sum_neg(self.payoffs@);
            }
            total_bets = total_bets + self.bets[i];
            i = i + 1;
        }
        proof {
            assert(self.bets@.take(self.player_count as int) =~= self.bets@);
        }
        let mut total_payoffs: i64 = 0;
        let mut k: usize = 0;
        proof {
            assert(self.payoffs@.take(0) =~= Seq::<i64>::empty());
        }
        while k < self.player_count
            invariant
                0 <= k <= self.player_count,
                self.wf(),
                total_payoffs as int == sum_i64(self.payoffs@.take(k as int)),
                total_payoffs <= 0,
            decreases self.player_count - k,
        {
            proof {
                lemma_sum_take_push(self.payoffs@, k as int);
                lemma_sum_take_monotone_neg(self.payoffs@, k as int + 1);
                lemma_sum_nonneg(self.bets@);
                lemma_sum_nonneg(self.stacks@);
                lemma_sum_neg(self.payoffs@);
            }
            total_payoffs = total_payoffs + self.payoffs[k];
            k = k + 1;
        }
        proof {
            assert(self.payoffs@.take(self.player_count as int) =~= self.payoffs@);
            lemma_sum_nonneg(self.bets@);
            lemma_sum_nonneg(self.stacks@);
        }
        total_bets - total_payoffs
    }

    /// Completes a bet or raises to the given amount. Under fixed-limit
    /// play the amount is forced to one full raise (or the stack); under
    /// pot-limit play the raise may not exceed the chips in the middle
    /// plus the call. A legal raise reopens the action. The state is
    /// unchanged on error.
    #[verifier::loop_isolation(false)]
    #[verifier::rlimit(100)]
    pub fn complete_bet_or_raise_to(&mut self, amount: i64, commentary: Option<String>) -> (r:
        Result<CompletionBettingOrRaisingTo, StateError>)
        requires
            old(self).wf(),
        ensures
            final(self).wf(),
            old(self).same_config(*final(self)),
            r is Err ==> *final(self) == *old(self),
            r is Err <==> !old(self).spec_raise_legal(amount as int),
            old(self).actor_indices@.len() == 0 ==> r == Err::<
                CompletionBettingOrRaisingTo,
                StateError,
            >(StateError::IllegalAction),
            r is Ok ==> final(self).at_rest(),
            final(self).statuses@ == old(self).statuses@,
            r matches Ok(op) ==> {
                &&& op.player_index == old(self).actor_indices@[0]
                &&& (op.player_index as int) < old(self).player_count
                &&& op.amount > 0
                &&& op.amount as int == old(self).spec_raise_target(amount as int)
                &&& op.amount as int > seq_max0(old(self).bets@)
                &&& op.amount as int <= old(self).bets@[op.player_index as int] + old(
                    self,
                ).stacks@[op.player_index as int]
                &&& final(self).operations@.len() > old(self).operations@.len()
                &&& (forall|i: int|
                    0 <= i < old(self).operations@.len() ==> #[trigger] final(self).operations@[i]
                        == old(self).operations@[i])
                &&& (final(self).operations@[old(self).operations@.len() as int]
                    matches Operation::CompletionBettingOrRaisingTo(o) && o.player_index
                    == op.player_index && o.amount == op.amount)
                &&& (old(self).spec_manual_chips() ==> {
                    &&& final(self).bets@ == old(self).bets@.update(
                        op.player_index as int,
                        op.amount,
                    )
                    &&& final(self).stacks@ == old(self).stacks@.update(
                        op.player_index as int,
                        (old(self).bets@[op.player_index as int] + old(
                            self,
                        ).stacks@[op.player_index as int] - op.amount) as i64,
                    )
                    &&& final(self).payoffs@ == old(self).payoffs@
                    &&& final(self).opener_index == Option::Some(op.player_index)
                    &&& final(self).acted_player_indices@.len() == old(self).player_count
                    &&& (forall|i: int|
                        0 <= i < old(self).player_count ==> (#[trigger] final(self).acted_player_indices@[i] <==> i == op.player_index))
                    &&& ((final(self).phase == Phase::Betting && final(self).actor_indices@
                        == final(self).spec_live_range(
                        op.player_index as int + 1,
                        old(self).player_count as int,
                    ) + final(self).spec_live_range(0, op.player_index as int + 1)) || (final(self).phase == Phase::BetCollection && final(self).bet_collection_status && final(self).actor_indices@.len() == 0))
                })
            },
    {
        if self.actor_indices.len() == 0 {
            return Err(StateError::IllegalAction);
        }
        let p = self.actor_indices[0];
        proof {
            assert((p as int) < self.player_count);
        }
        let street_i = match self.street_index {
            Option::Some(i) => i,
            Option::None => {
                return Err(StateError::IllegalAction);
            },
        };
        let max_bet = self.max_bet();
        proof {
            lemma_sum_bounds_elem(self.bets@, p as int);
            lemma_sum_bounds_elem(self.stacks@, p as int);
            lemma_sum_nonneg(self.bets@);
            lemma_sum_nonneg(self.stacks@);
            lemma_sum_neg(self.payoffs@);
        }
        let min_raise = self.streets[street_i].min_completion_betting_or_raising_amount;
        let all_in = if self.bets[p] <= i64::MAX - self.stacks[p] {
            self.bets[p] + self.stacks[p]
        } else {
            i64::MAX
        };
        proof {
            assert(self.bets@[p as int] + self.stacks@[p as int] <= sum_i64(
                self.starting_stacks@,
            )) by {
                lemma_sum_bounds_elem(self.bets@, p as int);
                lemma_sum_bounds_elem(self.stacks@, p as int);
                lemma_sum_nonneg(self.bets@);
                lemma_sum_nonneg(self.stacks@);
                lemma_sum_neg(self.payoffs@);
                lemma_sum_elem_pair(self.bets@, self.stacks@, p as int);
            }
        }
        let eff: i64 = match self.betting_structure {
            BettingStructure::FixedLimit => {
                match self.streets[street_i].max_completion_betting_or_raising_count {
                    Option::Some(maxc) => {
                        if self.completion_betting_or_raising_count >= maxc {
                            return Err(StateError::IllegalAction);
                        }
                    },
                    Option::None => {},
                }
                if max_bet > i64::MAX - min_raise {
                    return Err(StateError::IllegalAmount);
                }
                let target = max_bet + min_raise;
                if target <= all_in {
                    target
                } else {
                    all_in
                }
            },
            _ => amount,
        };
        // The raise must strictly exceed the standing bet, be affordable,
        // and either make a full raise or put the player all in.
        if eff <= max_bet {
            return Err(StateError::IllegalAmount);
        }
        if eff > all_in {
            return Err(StateError::IllegalAmount);
        }
        if eff - max_bet < min_raise && eff != all_in {
            return Err(StateError::IllegalAmount);
        }
        if matches!(self.betting_structure, BettingStructure::PotLimit) {
            let middle = self.middle_total();
            let delta = eff - self.bets[p];
            if middle <= i64::MAX - max_bet && delta > middle + (max_bet - self.bets[p]) {
                return Err(StateError::IllegalAmount);
            }
        }
        // Apply the raise; the queue is rebuilt below.
        self.actor_indices = std::collections::VecDeque::new();
        let old_bet = self.bets[p];
        let delta = eff - old_bet;
        proof {
            lemma_sum_update(self.bets@, p as int, eff);
            lemma_sum_update(self.stacks@, p as int, (self.stacks@[p as int] - delta) as i64);
        }
        self.bets.set(p, eff);
        let new_stack = self.stacks[p] - delta;
        self.stacks.set(p, new_stack);
        self.opener_index = Option::Some(p);
        if self.completion_betting_or_raising_count < usize::MAX {
            self.completion_betting_or_raising_count = self.completion_betting_or_raising_count
                + 1;
        }
        // The action reopens: everyone else is due to act again, from the
        // next position onward.
        let n = self.player_count;
        self.acted_player_indices = filled_bool(n, false);
        self.acted_player_indices.set(p, true);
        let mut queue: std::collections::VecDeque<usize> = std::collections::VecDeque::new();
        let mut i: usize = p + 1;
        proof {
            assert(queue@ =~= self.spec_live_range(p as int + 1, p as int + 1));
        }
        while i < n
            invariant
                p + 1 <= i <= n,
                queue@ == self.spec_live_range(p as int + 1, i as int),
                forall|k: int|
                    0 <= k < queue@.len() ==> {
                        let q = #[trigger] queue@[k];
                        &&& p + 1 <= q < i
                        &&& self.statuses@[q as int]
                        &&& self.stacks@[q as int] > 0
                    },
                forall|k1: int, k2: int|
                    0 <= k1 < k2 < queue@.len() ==> #[trigger] queue@[k1] < #[trigger] queue@[k2],
            decreases n - i,
        {
            if self.statuses[i] && self.stacks[i] > 0 {
                queue.push_back(i);
            }
            i = i + 1;
        }
        let ghost mid = queue@.len();
        let mut j: usize = 0;
        proof {
            assert(queue@ =~= self.spec_live_range(p as int + 1, n as int)
                + self.spec_live_range(0, 0));
        }
        while j < p + 1 && j < n
            invariant
                0 <= j <= n,
                j <= p + 1,
                mid <= queue@.len(),
                queue@ == self.spec_live_range(p as int + 1, n as int) + self.spec_live_range(
                    0,
                    j as int,
                ),
                forall|k: int|
                    0 <= k < mid ==> {
                        let q = #[trigger] queue@[k];
                        &&& p + 1 <= q < n
                        &&& self.statuses@[q as int]
                        &&& self.stacks@[q as int] > 0
                    },
                forall|k: int|
                    mid <= k < queue@.len() ==> {
                        let q = #[trigger] queue@[k];
                        &&& q < j
                        &&& self.statuses@[q as int]
                        &&& self.stacks@[q as int] > 0
                    },
                forall|k1: int, k2: int|
                    0 <= k1 < k2 < queue@.len() && mid <= k1 ==> #[trigger] queue@[k1]
                        < #[trigger] queue@[k2],
                forall|k1: int, k2: int|
                    0 <= k1 < k2 < mid ==> #[trigger] queue@[k1] < #[trigger] queue@[k2],
            decreases n - j,
        {
            if self.statuses[j] && self.stacks[j] > 0 {
                queue.push_back(j);
                proof {
                    assert(queue@ =~= self.spec_live_range(p as int + 1, n as int)
                        + self.spec_live_range(0, j as int + 1));
                }
            }
            j = j + 1;
        }
        proof {
            assert forall|k1: int, k2: int|
                0 <= k1 < k2 < queue@.len() implies #[trigger] queue@[k1]
                != #[trigger] queue@[k2] by {
                if k1 < mid && k2 >= mid {
                    assert(queue@[k1] >= p + 1 && queue@[k2] < p + 1);
                }
            }
        }
        let ghost snap = *self;
        self.actor_indices = queue;
        let commentary_log: Option<String> = match &commentary {
            Option::Some(c) => Option::Some(c.clone()),
            Option::None => Option::None,
        };
        self.operations.push(
            Operation::CompletionBettingOrRaisingTo(
                CompletionBettingOrRaisingTo {
                    player_index: p,
                    amount: eff,
                    commentary: commentary_log,
                },
            ),
        );
        let op = CompletionBettingOrRaisingTo { player_index: p, amount: eff, commentary };
        proof {
            assert(self.queue_ok());
            assert(self.phase == Phase::Betting);
            assert(self.bets@[p as int] == eff && eff > 0);
            assert(exists|i: int| 0 <= i < self.player_count && #[trigger] self.bets@[i] > 0);
        }
        self.advance();
        proof {
            if old(self).spec_manual_chips() {
                lemma_live_range_congruent(snap, *self, p as int + 1, n as int);
                lemma_live_range_congruent(snap, *self, 0, p as int + 1);
            }
        }
        Ok(op)
    }
}

/// Two elements of chip vectors of the same population are jointly bounded
/// by the starting total under conservation. Stated directly: each bet and
/// each stack is at most the total of all bets and stacks.
proof fn lemma_sum_elem_pair(bets: Seq<i64>, stacks: Seq<i64>, i: int)
    requires
        0 <= i < bets.len(),
        bets.len() == stacks.len(),
        forall|j: int| 0 <= j < bets.len() ==> #[trigger] bets[j] >= 0,
        forall|j: int| 0 <= j < stacks.len() ==> #[trigger] stacks[j] >= 0,
    ensures
        bets[i] + stacks[i] <= sum_i64(bets) + sum_i64(stacks),
{
    lemma_sum_bounds_elem(bets, i);
    lemma_sum_bounds_elem(stacks, i);
}

/// For non-negative values, the whole sum dominates every prefix sum.
proof fn lemma_sum_take_monotone_gen(s: Seq<i64>, k: int)
    requires
        0 <= k <= s.len(),
        forall|i: int| 0 <= i < s.len() ==> #[trigger] s[i] >= 0,
    ensures
        sum_i64(s) >= sum_i64(s.take(k)),
        sum_i64(s.take(k)) >= 0,
    decreases s.len() - k,
{
    lemma_sum_nonneg_take(s, k);
    if k < s.len() {
        lemma_sum_take_push(s, k);
        lemma_sum_take_monotone_gen(s, k + 1);
    } else {
        assert(s.take(k) =~= s);
    }
}

proof fn lemma_sum_nonneg_take(s: Seq<i64>, k: int)
    requires
        0 <= k <= s.len(),
        forall|i: int| 0 <= i < s.len() ==> #[trigger] s[i] >= 0,
    ensures
        sum_i64(s.take(k)) >= 0,
{
    assert(forall|i: int| 0 <= i < s.take(k).len() ==> #[trigger] s.take(k)[i] >= 0);
    lemma_sum_nonneg(s.take(k));
}

/// For non-positive values, every prefix sum dominates the whole sum.
proof fn lemma_sum_take_monotone_neg(s: Seq<i64>, k: int)
    requires
        0 <= k <= s.len(),
        forall|i: int| 0 <= i < s.len() ==> #[trigger] s[i] <= 0,
    ensures
        sum_i64(s) <= sum_i64(s.take(k)),
        sum_i64(s.take(k)) <= 0,
    decreases s.len() - k,
{
    assert(forall|i: int| 0 <= i < s.take(k).len() ==> #[trigger] s.take(k)[i] <= 0);
    lemma_sum_neg(s.take(k));
    if k < s.len() {
        lemma_sum_take_push(s, k);
        lemma_sum_take_monotone_neg(s, k + 1);
    } else {
        assert(s.take(k) =~= s);
    }
}


/// The total amount over a pot list.
pub open spec fn pots_total(ps: Seq<Pot>) -> int
    decreases ps.len(),
{
    if ps.len() == 0 {
        0
    } else {
        ps[0].raked_amount + ps[0].unraked_amount + pots_total(ps.skip(1))
    }
}

proof fn lemma_pots_total_push(ps: Seq<Pot>, p: Pot)
    ensures
        pots_total(ps.push(p)) == pots_total(ps) + p.raked_amount + p.unraked_amount,
    decreases ps.len(),
{
    let q = ps.push(p);
    assert(q.len() > 0);
    assert(pots_total(q) == q[0].raked_amount + q[0].unraked_amount + pots_total(q.skip(1)));
    if ps.len() == 0 {
        assert(q[0] == p);
        assert(q.skip(1) =~= Seq::<Pot>::empty());
        assert(pots_total(q.skip(1)) == 0);
    } else {
        assert(q[0] == ps[0]);
        assert(q.skip(1) =~= ps.skip(1).push(p));
        lemma_pots_total_push(ps.skip(1), p);
        assert(pots_total(ps) == ps[0].raked_amount + ps[0].unraked_amount + pots_total(
            ps.skip(1),
        ));
    }
}

/// The sum of each contribution capped at `x`.
pub open spec fn sum_cap(c: Seq<i64>, x: int) -> int
    decreases c.len(),
{
    if c.len() == 0 {
        0
    } else {
        (if c[0] <= x {
            c[0] as int
        } else {
            x
        }) + sum_cap(c.skip(1), x)
    }
}

proof fn lemma_sum_cap_zero(c: Seq<i64>, x: int)
    requires
        forall|i: int| 0 <= i < c.len() ==> #[trigger] c[i] >= 0,
        x == 0,
    ensures
        sum_cap(c, x) == 0,
    decreases c.len(),
{
    if c.len() > 0 {
        assert(forall|j: int| 0 <= j < c.skip(1).len() ==> c.skip(1)[j] == c[j + 1]);
        lemma_sum_cap_zero(c.skip(1), x);
    }
}

proof fn lemma_sum_cap_full(c: Seq<i64>, x: int)
    requires
        forall|i: int| 0 <= i < c.len() ==> #[trigger] c[i] <= x,
    ensures
        sum_cap(c, x) == sum_i64(c),
    decreases c.len(),
{
    if c.len() > 0 {
        assert(forall|j: int| 0 <= j < c.skip(1).len() ==> c.skip(1)[j] == c[j + 1]);
        lemma_sum_cap_full(c.skip(1), x);
    }
}

proof fn lemma_sum_cap_take_push(c: Seq<i64>, k: int, x: int)
    requires
        0 <= k < c.len(),
    ensures
        sum_cap(c.take(k + 1), x) == sum_cap(c.take(k), x) + (if c[k] <= x {
            c[k] as int
        } else {
            x
        }),
    decreases k,
{
    if k == 0 {
        assert(c.take(1) =~= seq![c[0]]);
        assert(c.take(1).skip(1) =~= Seq::<i64>::empty());
        assert(c.take(0) =~= Seq::<i64>::empty());
    } else {
        assert(c.take(k + 1)[0] == c[0]);
        assert(c.take(k + 1).skip(1) =~= c.skip(1).take(k));
        assert(c.take(k)[0] == c[0]);
        assert(c.take(k).skip(1) =~= c.skip(1).take(k - 1));
        assert(c.skip(1)[k - 1] == c[k]);
        lemma_sum_cap_take_push(c.skip(1), k - 1, x);
    }
}

proof fn lemma_sum_cap_take_all(c: Seq<i64>, x: int)
    ensures
        sum_cap(c.take(c.len() as int), x) == sum_cap(c, x),
{
    assert(c.take(c.len() as int) =~= c);
}

/// How many contributions exceed `x`.
pub open spec fn count_above(c: Seq<i64>, x: int) -> int
    decreases c.len(),
{
    if c.len() == 0 {
        0
    } else {
        (if c[0] > x {
            1int
        } else {
            0int
        }) + count_above(c.skip(1), x)
    }
}

proof fn lemma_count_above_nonneg(c: Seq<i64>, x: int)
    ensures
        count_above(c, x) >= 0,
    decreases c.len(),
{
    if c.len() > 0 {
        lemma_count_above_nonneg(c.skip(1), x);
    }
}

/// Raising the cutoff past an attained value strictly lowers the count.
proof fn lemma_count_above_strict(c: Seq<i64>, lo: int, hi: int, w: int)
    requires
        lo < hi,
        0 <= w < c.len(),
        c[w] == hi,
    ensures
        count_above(c, hi) < count_above(c, lo),
    decreases c.len(),
{
    lemma_count_above_monotone(c, lo, hi);
    if w == 0 {
        lemma_count_above_monotone(c.skip(1), lo, hi);
    } else {
        assert(c.skip(1)[w - 1] == c[w]);
        lemma_count_above_strict(c.skip(1), lo, hi, w - 1);
    }
}

proof fn lemma_count_above_monotone(c: Seq<i64>, lo: int, hi: int)
    requires
        lo <= hi,
    ensures
        count_above(c, hi) <= count_above(c, lo),
    decreases c.len(),
{
    if c.len() > 0 {
        lemma_count_above_monotone(c.skip(1), lo, hi);
    }
}

impl State {
    /// The per-player total contributions: collected chips plus the
    /// pending bet.
    #[verifier::loop_isolation(false)]
    fn contribs_vec(&self) -> (r: Vec<i64>)
        requires
            self.wf(),
        ensures
            r@ == self.spec_contribs(),
            r@.len() == self.player_count,
            forall|j: int| 0 <= j < self.player_count ==> #[trigger] r@[j] >= 0,
            forall|j: int|
                0 <= j < self.player_count ==> #[trigger] r@[j] == self.bets@[j]
                    - self.payoffs@[j],
            sum_i64(r@) == sum_i64(self.bets@) - sum_i64(self.payoffs@),
    {
        let n = self.player_count;
        let mut c: Vec<i64> = Vec::new();
        let mut i: usize = 0;
        proof {
            lemma_sum_nonneg(self.bets@);
            lemma_sum_nonneg(self.stacks@);
            lemma_sum_neg(self.payoffs@);
        }
        while i < n
            invariant
                0 <= i <= n,
                c@.len() == i,
                forall|j: int| 0 <= j < i ==> #[trigger] c@[j] == self.bets@[j] - self.payoffs@[j],
                forall|j: int| 0 <= j < i ==> #[trigger] c@[j] >= 0,
            decreases n - i,
        {
            proof {
                lemma_sum_bounds_elem(self.bets@, i as int);
                lemma_sum_bounds_neg_elem(self.payoffs@, i as int);
            }
            c.push(self.bets[i] - self.payoffs[i]);
            i = i + 1;
        }
        proof {
            assert(sum_i64(c@) == sum_i64(self.bets@) - sum_i64(self.payoffs@)) by {
                lemma_sum_pointwise_diff(c@, self.bets@, self.payoffs@);
            }
            assert(c@ =~= self.spec_contribs());
        }
        c
    }

    /// The side-pot bases and the pooled antes: with trimming enabled,
    /// each contribution's ante portion is set aside into the pool.
    #[verifier::loop_isolation(false)]
    fn pot_bases(&self, c: &Vec<i64>) -> (r: (Vec<i64>, i64))
        requires
            self.wf(),
            c@ == self.spec_contribs(),
            sum_i64(c@) <= i64::MAX,
            forall|j: int| 0 <= j < self.player_count ==> #[trigger] c@[j] >= 0,
            forall|j: int|
                0 <= j < self.player_count ==> #[trigger] c@[j] == self.bets@[j]
                    - self.payoffs@[j],
        ensures
            r.0@ == self.spec_pot_base(),
            r.1 as int == self.spec_ante_pool(),
            r.1 >= 0,
            r.0@.len() == self.player_count,
            forall|j: int| 0 <= j < self.player_count ==> 0 <= #[trigger] r.0@[j] <= c@[j],
            sum_i64(c@) == sum_i64(r.0@) + r.1,
    {
        let n = self.player_count;
        let ghost cv = c@;
        let ghost aseq = Seq::new(n as nat, |j: int| self.spec_ante_portion(j) as i64);
        let mut d: Vec<i64> = Vec::new();
        let mut pool: i64 = 0;
        if self.ante_trimming_status {
            let mut j: usize = 0;
            proof {
                assert(aseq.take(0) =~= Seq::<i64>::empty());
                assert(cv.take(0) =~= Seq::<i64>::empty());
            }
            while j < n
                invariant
                    0 <= j <= n,
                    d@.len() == j,
                    forall|m: int| 0 <= m < j ==> #[trigger] d@[m] == cv[m] - aseq[m],
                    pool as int == sum_i64(aseq.take(j as int)),
                    pool as int <= sum_i64(cv.take(j as int)),
                    pool >= 0,
                decreases n - j,
            {
                let ante = self.get_effective_ante(j);
                let aj = if c[j] <= ante {
                    c[j]
                } else {
                    ante
                };
                proof {
                    assert(cv[j as int] == self.bets@[j as int] - self.payoffs@[j as int]);
                    assert(aseq[j as int] == self.spec_ante_portion(j as int) as i64);
                    assert(aseq[j as int] == aj);
                    lemma_sum_take_push(aseq, j as int);
                    lemma_sum_take_push(cv, j as int);
                    lemma_sum_take_monotone_gen(cv, j as int + 1);
                }
                pool = pool + aj;
                d.push(c[j] - aj);
                j = j + 1;
            }
            proof {
                assert(aseq.take(n as int) =~= aseq);
                assert(cv.take(n as int) =~= cv);
            }
        } else {
            d = c.clone();
            proof {
                assert(d@ =~= c@);
                assert(forall|m: int| 0 <= m < n ==> #[trigger] aseq[m] == 0i64);
                lemma_sum_of_filled_zero(aseq);
            }
        }
        proof {
            assert forall|m: int| 0 <= m < n implies #[trigger] d@[m] == self.spec_pot_base()[m]
                && d@[m] == cv[m] - aseq[m] by {
                assert(cv[m] == self.bets@[m] - self.payoffs@[m]);
                assert(aseq[m] == self.spec_ante_portion(m) as i64);
            }
            assert(d@ =~= self.spec_pot_base());
            assert(pool as int == self.spec_ante_pool());
            assert(sum_i64(cv) == sum_i64(d@) + sum_i64(aseq)) by {
                lemma_sum_pointwise_split(cv, d@, aseq);
            }
            assert forall|m: int| 0 <= m < n implies #[trigger] aseq[m] >= 0 by {
                assert(aseq[m] == self.spec_ante_portion(m) as i64);
                assert(cv[m] == self.bets@[m] - self.payoffs@[m]);
            }
            assert forall|m: int| 0 <= m < n implies 0 <= #[trigger] d@[m] <= cv[m] by {
                assert(d@[m] == cv[m] - aseq[m]);
                assert(aseq[m] >= 0);
            }
        }
        (d, pool)
    }

    /// The active players with a positive contribution, ascending: the
    /// main pot's field.
    #[verifier::loop_isolation(false)]
    fn contributors(&self, c: &Vec<i64>) -> (r: Vec<usize>)
        requires
            self.wf(),
            c@.len() == self.player_count,
        ensures
            forall|m: int|
                0 <= m < r@.len() ==> {
                    let p = #[trigger] r@[m];
                    &&& (p as int) < self.player_count
                    &&& self.statuses@[p as int]
                    &&& c@[p as int] > 0
                },
            forall|w: int|
                0 <= w < self.player_count && self.statuses@[w] && c@[w] > 0 ==> r@.contains(
                    w as usize,
                ),
            forall|m1: int, m2: int|
                0 <= m1 < m2 < r@.len() ==> #[trigger] r@[m1] < #[trigger] r@[m2],
    {
        let n = self.player_count;
        let mut players: Vec<usize> = Vec::new();
        let mut q: usize = 0;
        while q < n
            invariant
                0 <= q <= n,
                forall|m: int|
                    0 <= m < players@.len() ==> {
                        let p = #[trigger] players@[m];
                        &&& (p as int) < q
                        &&& self.statuses@[p as int]
                        &&& c@[p as int] > 0
                    },
                forall|w: int|
                    0 <= w < q && self.statuses@[w] && c@[w] > 0 ==> players@.contains(w as usize),
                forall|m1: int, m2: int|
                    0 <= m1 < m2 < players@.len() ==> #[trigger] players@[m1]
                        < #[trigger] players@[m2],
            decreases n - q,
        {
            if self.statuses[q] && c[q] > 0 {
                let ghost players0 = players@;
                players.push(q);
                proof {
                    assert forall|w: int|
                        0 <= w <= q && self.statuses@[w] && c@[w] > 0 implies players@.contains(
                        w as usize,
                    ) by {
                        if w < q {
                            assert(players0.contains(w as usize));
                            let m = choose|m: int|
                                0 <= m < players0.len() && players0[m] == w as usize;
                            assert(players@[m] == w as usize);
                        } else {
                            assert(players@[players@.len() - 1] == w as usize);
                        }
                    }
                }
            }
            q = q + 1;
        }
        players
    }

    /// The side pots, derived from each player's total contribution (the
    /// collected chips plus any pending bet). With ante trimming enabled,
    /// each contribution's ante portion is pooled into the main pot
    /// alone, so that no side pot forms out of antes; side pots then come
    /// from what remains. For each distinct positive level of those
    /// bases, from the lowest up, a pot holds each covering player's
    /// share of the span since the previous level; the main pot is
    /// contested by every active contributor, the later pots by the
    /// active players whose base reaches the level. The default rake
    /// takes nothing, so every pot is entirely unraked. Together the pots
    /// hold exactly the contributed chips, and eligibility only narrows
    /// from each pot to the next.
    #[verifier::loop_isolation(false)]
    #[verifier::rlimit(100)]
    pub fn pots(&self) -> (r: Vec<Pot>)
        requires
            self.wf(),
        ensures
            pots_total(r@) == sum_i64(self.bets@) - sum_i64(self.payoffs@),
            forall|k: int| 0 <= k < r@.len() ==> (#[trigger] r@[k]).raked_amount == 0,
            forall|k: int| 0 <= k < r@.len() ==> (#[trigger] r@[k]).unraked_amount > 0,
            forall|k: int, m: int|
                0 <= k < r@.len() && 0 <= m < r@[k].player_indices@.len() ==> {
                    let p = #[trigger] r@[k].player_indices@[m];
                    &&& (p as int) < self.player_count
                    &&& self.statuses@[p as int]
                },
            forall|k1: int, k2: int, m: int|
                #![trigger r@[k1], r@[k2].player_indices@[m]]
                0 <= k1 < k2 < r@.len() && 0 <= m < r@[k2].player_indices@.len()
                    ==> r@[k1].player_indices@.contains(r@[k2].player_indices@[m]),
            exists|lvls: Seq<int>| #[trigger] self.spec_pots_at_levels(r@, lvls),
    {
        let n = self.player_count;
        proof {
            lemma_sum_nonneg(self.stacks@);
        }
        let c = self.contribs_vec();
        let ghost cv = c@;
        // Set the ante portions aside: with trimming enabled they belong
        // to the main pot alone, so side pots form over what remains.
        let (d, pool) = self.pot_bases(&c);
        let ghost dv = d@;
        let mut pots: Vec<Pot> = Vec::new();
        let ghost mut lvls: Seq<int> = Seq::empty();
        let mut last: i64 = 0;
        proof {
            lemma_sum_cap_zero(dv, 0);
            lemma_count_above_nonneg(dv, 0);
        }
        loop
            invariant
                self.wf(),
                cv == c@,
                dv == d@,
                c@.len() == n,
                d@.len() == n,
                n == self.player_count,
                pool >= 0,
                pool as int == self.spec_ante_pool(),
                cv == self.spec_contribs(),
                dv == self.spec_pot_base(),
                sum_i64(cv) == sum_i64(dv) + pool,
                forall|j: int| 0 <= j < n ==> #[trigger] cv[j] >= 0,
                forall|j: int| 0 <= j < n ==> 0 <= #[trigger] dv[j] <= cv[j],
                forall|j: int| 0 <= j < n ==> #[trigger] cv[j] == self.bets@[j] - self.payoffs@[j],
                last >= 0,
                pots_total(pots@) == sum_cap(dv, last as int) + (if pots@.len() > 0 {
                    pool as int
                } else {
                    0int
                }),
                lvls.len() == pots@.len(),
                forall|k: int| 0 <= k < lvls.len() ==> #[trigger] lvls[k] <= last,
                forall|k1: int, k2: int| 0 <= k1 < k2 < lvls.len() ==> #[trigger] lvls[k1]
                    < #[trigger] lvls[k2],
                forall|k: int| 0 <= k < lvls.len() ==> #[trigger] lvls[k] > 0,
                (lvls.len() == 0 && last == 0) || (lvls.len() > 0 && last as int == lvls[lvls.len()
                    - 1]),
                forall|k: int|
                    0 <= k < lvls.len() ==> exists|j: int|
                        0 <= j < n && dv[j] == #[trigger] lvls[k],
                forall|j: int|
                    0 <= j < n && 0 < #[trigger] dv[j] && dv[j] <= last ==> lvls.contains(
                        dv[j] as int,
                    ),
                forall|k: int|
                    0 <= k < pots@.len() ==> (#[trigger] pots@[k]).unraked_amount == sum_cap(
                        dv,
                        lvls[k],
                    ) - sum_cap(
                        dv,
                        if k == 0 {
                            0int
                        } else {
                            lvls[k - 1]
                        },
                    ) + (if k == 0 {
                        pool as int
                    } else {
                        0int
                    }),
                forall|k: int, m1: int, m2: int|
                    0 <= k < pots@.len() && 0 <= m1 < m2 < (
                    #[trigger] pots@[k]).player_indices@.len()
                        ==> #[trigger] pots@[k].player_indices@[m1]
                        < #[trigger] pots@[k].player_indices@[m2],
                forall|k: int| 0 <= k < pots@.len() ==> (#[trigger] pots@[k]).raked_amount == 0,
                forall|k: int| 0 <= k < pots@.len() ==> (#[trigger] pots@[k]).unraked_amount > 0,
                forall|k: int, m: int|
                    0 <= k < pots@.len() && 0 <= m < pots@[k].player_indices@.len() ==> {
                        let p = #[trigger] pots@[k].player_indices@[m];
                        &&& (p as int) < n
                        &&& self.statuses@[p as int]
                        &&& (k == 0 ==> cv[p as int] > 0)
                        &&& (k > 0 ==> dv[p as int] >= lvls[k])
                    },
                forall|k: int, q: int|
                    #![trigger pots@[k], dv[q]]
                    0 <= k < pots@.len() && 0 <= q < n && self.statuses@[q] && ((k == 0 && cv[q]
                        > 0) || (k > 0 && dv[q] >= lvls[k])) ==> pots@[k].player_indices@.contains(
                        q as usize,
                    ),
            decreases count_above(dv, last as int),
        {
            // The next level: the least side-pot base above the last one.
            let mut next: Option<i64> = Option::None;
            let mut s: usize = 0;
            while s < n
                invariant
                    0 <= s <= n,
                    match next {
                        Option::Some(v) => {
                            &&& v > last
                            &&& exists|j: int| 0 <= j < s && #[trigger] dv[j] == v
                            &&& forall|j: int|
                                0 <= j < s ==> (#[trigger] dv[j] <= last || dv[j] >= v)
                        },
                        Option::None => forall|j: int| 0 <= j < s ==> #[trigger] dv[j] <= last,
                    },
                decreases n - s,
            {
                if d[s] > last {
                    match next {
                        Option::Some(v) => {
                            if d[s] < v {
                                next = Option::Some(d[s]);
                            }
                        },
                        Option::None => {
                            next = Option::Some(d[s]);
                        },
                    }
                }
                s = s + 1;
            }
            let hi = match next {
                Option::Some(v) => v,
                Option::None => {
                    // Every base is covered.
                    proof {
                        lemma_sum_cap_full(dv, last as int);
                    }
                    if pots.len() == 0 && pool > 0 {
                        // Only the pooled antes were contributed: they
                        // alone form the main pot, contested by every
                        // active player who paid in.
                        let players = self.contributors(&c);
                        let pot = Pot {
                            raked_amount: 0,
                            unraked_amount: pool,
                            player_indices: players,
                        };
                        proof {
                            lemma_pots_total_push(pots@, pot);
                        }
                        pots.push(pot);
                        proof {
                            assert(forall|j: int| 0 <= j < n ==> #[trigger] dv[j] == 0i64);
                            lemma_sum_of_filled_zero(dv);
                            assert(self.spec_pots_at_levels(pots@, lvls));
                        }
                        return pots;
                    }
                    proof {
                        assert(self.spec_pots_at_levels(pots@, lvls));
                    }
                    return pots;
                },
            };
            // One pot for the span from the last level to this one; the
            // first pot also holds the pooled antes.
            let first = pots.len() == 0;
            let mut amount: i64 = 0;
            let mut players: Vec<usize> = Vec::new();
            let mut k: usize = 0;
            proof {
                assert(dv.take(0) =~= Seq::<i64>::empty());
            }
            while k < n
                invariant
                    0 <= k <= n,
                    hi > last,
                    forall|j: int| 0 <= j < n ==> (#[trigger] dv[j] <= last || dv[j] >= hi),
                    amount as int == sum_cap(dv.take(k as int), hi as int) - sum_cap(
                        dv.take(k as int),
                        last as int,
                    ),
                    amount >= 0,
                    forall|m: int|
                        0 <= m < players@.len() ==> {
                            let p = #[trigger] players@[m];
                            &&& (p as int) < k
                            &&& self.statuses@[p as int]
                            &&& (first ==> cv[p as int] > 0)
                            &&& (!first ==> dv[p as int] >= hi)
                        },
                    forall|q: int|
                        0 <= q < k && self.statuses@[q] && ((first && cv[q] > 0) || (!first
                            && dv[q] >= hi)) ==> players@.contains(q as usize),
                    forall|m1: int, m2: int|
                        0 <= m1 < m2 < players@.len() ==> #[trigger] players@[m1]
                            < #[trigger] players@[m2],
                decreases n - k,
            {
                proof {
                    lemma_sum_cap_take_push(dv, k as int, hi as int);
                    lemma_sum_cap_take_push(dv, k as int, last as int);
                    lemma_sum_cap_bounds(dv.take(k as int + 1), hi as int);
                    lemma_sum_cap_bounds(dv.take(k as int + 1), last as int);
                    lemma_sum_take_monotone_gen(dv, k as int + 1);
                }
                if d[k] >= hi {
                    amount = amount + (hi - last);
                }
                let eligible = if first {
                    self.statuses[k] && c[k] > 0
                } else {
                    self.statuses[k] && d[k] >= hi
                };
                if eligible {
                    let ghost players0 = players@;
                    players.push(k);
                    proof {
                        assert forall|q: int|
                            0 <= q <= k && self.statuses@[q] && ((first && cv[q] > 0) || (!first
                                && dv[q] >= hi)) implies players@.contains(q as usize) by {
                            if q < k {
                                assert(players0.contains(q as usize));
                                let m = choose|m: int|
                                    0 <= m < players0.len() && players0[m] == q as usize;
                                assert(players@[m] == q as usize);
                            } else {
                                assert(players@[players@.len() - 1] == q as usize);
                            }
                        }
                    }
                }
                k = k + 1;
            }
            proof {
                lemma_sum_cap_take_all(dv, hi as int);
                lemma_sum_cap_take_all(dv, last as int);
                let w = choose|j: int| 0 <= j < n && #[trigger] dv[j] == hi;
                lemma_sum_cap_member(dv, w, last as int, hi as int);
                lemma_sum_cap_bounds(dv, hi as int);
                lemma_sum_cap_bounds(dv, last as int);
            }
            let total_amount = if first {
                amount + pool
            } else {
                amount
            };
            let ghost pots0 = pots@;
            let pot = Pot {
                raked_amount: 0,
                unraked_amount: total_amount,
                player_indices: players,
            };
            proof {
                lemma_pots_total_push(pots@, pot);
            }
            pots.push(pot);
            proof {
                let ghost lvls0 = lvls;
                lvls = lvls.push(hi as int);
                assert(forall|k: int| 0 <= k < pots0.len() ==> #[trigger] pots@[k] == pots0[k]);
                assert(forall|k: int| 0 <= k < lvls0.len() ==> #[trigger] lvls[k] == lvls0[k]);
                assert(lvls[lvls.len() - 1] == hi as int);
                assert forall|j: int|
                    0 <= j < n && 0 < #[trigger] dv[j] && dv[j] <= hi implies lvls.contains(
                    dv[j] as int,
                ) by {
                    if dv[j] <= last {
                        assert(lvls0.contains(dv[j] as int));
                        let idx = choose|idx: int|
                            0 <= idx < lvls0.len() && lvls0[idx] == dv[j] as int;
                        assert(lvls[idx] == dv[j] as int);
                    } else {
                        assert(dv[j] >= hi);
                        assert(lvls[lvls.len() - 1] == dv[j] as int);
                    }
                }
            }
            let ghost old_last = last as int;
            last = hi;
            proof {
                assert(exists|j: int| 0 <= j < n && #[trigger] dv[j] == hi);
                let w = choose|j: int| 0 <= j < n && #[trigger] dv[j] == hi;
                lemma_count_above_strict(dv, old_last, hi as int, w);
                lemma_count_above_nonneg(dv, hi as int);
                lemma_count_above_nonneg(dv, old_last);
            }
        }
    }
}

/// Sequences that split pointwise into two parts sum accordingly.
proof fn lemma_sum_pointwise_split(c: Seq<i64>, d: Seq<i64>, a: Seq<i64>)
    requires
        c.len() == d.len(),
        c.len() == a.len(),
        forall|j: int| 0 <= j < c.len() ==> #[trigger] d[j] == c[j] - a[j],
    ensures
        sum_i64(c) == sum_i64(d) + sum_i64(a),
    decreases c.len(),
{
    if c.len() > 0 {
        assert(forall|j: int| 0 <= j < c.skip(1).len() ==> c.skip(1)[j] == c[j + 1]);
        assert(forall|j: int| 0 <= j < d.skip(1).len() ==> d.skip(1)[j] == d[j + 1]);
        assert(forall|j: int| 0 <= j < a.skip(1).len() ==> a.skip(1)[j] == a[j + 1]);
        lemma_sum_pointwise_split(c.skip(1), d.skip(1), a.skip(1));
    }
}

/// A capped sum spanning a covering member strictly grows with the cap./// A capped sum spanning a covering member strictly grows with the cap.
proof fn lemma_sum_cap_member(c: Seq<i64>, w: int, lo: int, hi: int)
    requires
        0 <= w < c.len(),
        lo < hi,
        c[w] >= hi,
        lo >= 0,
    ensures
        sum_cap(c, hi) - sum_cap(c, lo) >= hi - lo,
    decreases c.len(),
{
    lemma_sum_cap_pair_monotone(c, lo, hi);
    if w == 0 {
        lemma_sum_cap_pair_monotone(c.skip(1), lo, hi);
    } else {
        assert(c.skip(1)[w - 1] == c[w]);
        lemma_sum_cap_member(c.skip(1), w - 1, lo, hi);
    }
}

proof fn lemma_sum_cap_pair_monotone(c: Seq<i64>, lo: int, hi: int)
    requires
        lo <= hi,
    ensures
        sum_cap(c, lo) <= sum_cap(c, hi),
    decreases c.len(),
{
    if c.len() > 0 {
        lemma_sum_cap_pair_monotone(c.skip(1), lo, hi);
    }
}

proof fn lemma_sum_cap_bounds(c: Seq<i64>, x: int)
    requires
        forall|i: int| 0 <= i < c.len() ==> #[trigger] c[i] >= 0,
        x >= 0,
    ensures
        0 <= sum_cap(c, x) <= sum_i64(c),
    decreases c.len(),
{
    if c.len() > 0 {
        assert(forall|j: int| 0 <= j < c.skip(1).len() ==> c.skip(1)[j] == c[j + 1]);
        lemma_sum_cap_bounds(c.skip(1), x);
    }
}

/// Contributions defined pointwise as bets minus payoffs sum accordingly.
proof fn lemma_sum_pointwise_diff(c: Seq<i64>, bets: Seq<i64>, payoffs: Seq<i64>)
    requires
        c.len() == bets.len(),
        c.len() == payoffs.len(),
        forall|j: int| 0 <= j < c.len() ==> #[trigger] c[j] == bets[j] - payoffs[j],
    ensures
        sum_i64(c) == sum_i64(bets) - sum_i64(payoffs),
    decreases c.len(),
{
    if c.len() > 0 {
        assert(forall|j: int| 0 <= j < c.skip(1).len() ==> c.skip(1)[j] == c[j + 1]);
        assert(forall|j: int| 0 <= j < bets.skip(1).len() ==> bets.skip(1)[j] == bets[j + 1]);
        assert(forall|j: int|
            0 <= j < payoffs.skip(1).len() ==> payoffs.skip(1)[j] == payoffs[j + 1]);
        lemma_sum_pointwise_diff(c.skip(1), bets.skip(1), payoffs.skip(1));
    }
}

/// Chip conservation: at every well-formed state the stacks, pending bets,
/// and collected chips add up to the starting stacks.
pub proof fn lemma_stack_conservation(s: State)
    requires
        s.wf(),
    ensures
        sum_i64(s.stacks@) + sum_i64(s.bets@) - sum_i64(s.payoffs@) == sum_i64(
            s.starting_stacks@,
        ),
{
}

/// Stack conservation, stated over the pots: once the pending bets are
/// collected, the stacks, the bets, and the pot amounts add up to the
/// starting stacks (the pots hold exactly the collected chips).
pub proof fn lemma_stack_conservation_with_pots(s: State, pot_total: int)
    requires
        s.wf(),
        pot_total == sum_i64(s.bets@) - sum_i64(s.payoffs@),
        forall|i: int| 0 <= i < s.player_count ==> #[trigger] s.bets@[i] == 0i64,
    ensures
        sum_i64(s.stacks@) + sum_i64(s.bets@) + pot_total == sum_i64(s.starting_stacks@),
{
    lemma_sum_of_filled_zero(s.bets@);
}

/// Actor-queue well-formedness: during betting every queued index denotes
/// an active player with chips behind, and no player is queued twice.
pub proof fn lemma_actor_queue_well_formed(s: State)
    requires
        s.wf(),
        s.phase == Phase::Betting,
    ensures
        s.queue_ok(),
{
}

} // verus!
