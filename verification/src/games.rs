//! Game factories: each presets the streets and configuration of one
//! poker variant and hands them to the state builder.

use vstd::prelude::*;

verus! {

use crate::hands::HandType;
use crate::state::{
    Automation,
    BettingStructure,
    ConfigError,
    Mode,
    Opening,
    State,
    StateBuilder,
    Street,
};
use crate::utilities::Deck;

/// The value a sparse per-player chip map assigns, zero where absent.
pub open spec fn spec_cleaned(m: Map<usize, i64>, i: int) -> i64 {
    if m.contains_key(i as usize) {
        m[i as usize]
    } else {
        0i64
    }
}

/// Whether a factory's player configuration can build a state: at least
/// two players, no negative ante or starting stack, no blind at the
/// representation's edge, and a starting total that fits the chip type.
pub open spec fn spec_config_ok(
    raw_antes: Map<usize, i64>,
    raw_blinds_or_straddles: Map<usize, i64>,
    raw_starting_stacks: Map<usize, i64>,
    player_count: int,
) -> bool {
    &&& player_count >= 2
    &&& (forall|i: int| 0 <= i < player_count ==> #[trigger] spec_cleaned(raw_antes, i) >= 0)
    &&& (forall|i: int|
        0 <= i < player_count ==> #[trigger] spec_cleaned(raw_starting_stacks, i) >= 0)
    &&& (forall|i: int|
        0 <= i < player_count ==> #[trigger] spec_cleaned(raw_blinds_or_straddles, i) != i64::MIN)
    &&& crate::state::sum_i64(
        Seq::new(player_count as nat, |i: int| spec_cleaned(raw_starting_stacks, i)),
    ) <= i64::MAX
}

/// The four hold'em streets: a pre-flop deal of `hole_count` face-down
/// hole cards, then a three-card flop, a turn, and a river of one card
/// each behind a burn; no drawing, every round opened by position; the
/// early streets bet at least `small_bet`, the late ones `late_bet`, with
/// `max_raises` capping every street's raises.
pub open spec fn holdem_schedule(
    streets: Seq<Street>,
    hole_count: int,
    small_bet: i64,
    late_bet: i64,
    max_raises: Option<usize>,
) -> bool {
    &&& streets.len() == 4
    &&& !streets[0].card_burning_status
    &&& streets[0].hole_dealing_statuses@.len() == hole_count
    &&& (forall|i: int|
        0 <= i < hole_count ==> !(#[trigger] streets[0].hole_dealing_statuses@[i]))
    &&& streets[0].board_dealing_count == 0
    &&& streets[1].card_burning_status
    &&& streets[1].hole_dealing_statuses@.len() == 0
    &&& streets[1].board_dealing_count == 3
    &&& streets[2].card_burning_status
    &&& streets[2].hole_dealing_statuses@.len() == 0
    &&& streets[2].board_dealing_count == 1
    &&& streets[3].card_burning_status
    &&& streets[3].hole_dealing_statuses@.len() == 0
    &&& streets[3].board_dealing_count == 1
    &&& (forall|k: int| 0 <= k < 4 ==> !(#[trigger] streets[k]).draw_status)
    &&& (forall|k: int| 0 <= k < 4 ==> (#[trigger] streets[k]).opening == Opening::Position)
    &&& streets[0].min_completion_betting_or_raising_amount == small_bet
    &&& streets[1].min_completion_betting_or_raising_amount == small_bet
    &&& streets[2].min_completion_betting_or_raising_amount == late_bet
    &&& streets[3].min_completion_betting_or_raising_amount == late_bet
    &&& (forall|k: int|
        0 <= k < 4 ==> (#[trigger] streets[k]).max_completion_betting_or_raising_count
            == max_raises)
}

/// Builds the four hold'em streets: two hole cards, then the flop, turn,
/// and river, betting by position throughout.
fn holdem_streets(
    hole_count: usize,
    small_bet: i64,
    late_bet: i64,
    max_raises: Option<usize>,
) -> (r: Result<Vec<Street>, ConfigError>)
    ensures
        r is Ok <==> small_bet > 0 && late_bet > 0,
        r matches Ok(v) ==> holdem_schedule(v@, hole_count as int, small_bet, late_bet, max_raises)
            && forall|i: int|
            0 <= i < v@.len() ==> (#[trigger] v@[i]).wf() && v@[i].opening == Opening::Position,
{
    let mut pre: Vec<bool> = Vec::new();
    let mut k: usize = 0;
    while k < hole_count
        invariant
            pre@.len() == k,
            k <= hole_count,
            forall|i: int| 0 <= i < k ==> !(#[trigger] pre@[i]),
        decreases hole_count - k,
    {
        pre.push(false);
        k = k + 1;
    }
    let s0 = match Street::new(false, pre, 0, false, Opening::Position, small_bet, max_raises) {
        Ok(s) => s,
        Err(e) => {
            return Err(e);
        },
    };
    let s1 = match Street::new(
        true,
        Vec::new(),
        3,
        false,
        Opening::Position,
        small_bet,
        max_raises,
    ) {
        Ok(s) => s,
        Err(e) => {
            return Err(e);
        },
    };
    let s2 = match Street::new(
        true,
        Vec::new(),
        1,
        false,
        Opening::Position,
        late_bet,
        max_raises,
    ) {
        Ok(s) => s,
        Err(e) => {
            return Err(e);
        },
    };
    let s3 = match Street::new(
        true,
        Vec::new(),
        1,
        false,
        Opening::Position,
        late_bet,
        max_raises,
    ) {
        Ok(s) => s,
        Err(e) => {
            return Err(e);
        },
    };
    let mut streets: Vec<Street> = Vec::new();
    streets.push(s0);
    streets.push(s1);
    streets.push(s2);
    streets.push(s3);
    Ok(streets)
}

/// What every hold'em factory promises of a built state: the
/// configuration it was given, the hold'em street schedule, the standard
/// deck, the given hand types, and a fresh hand resting at its first
/// decision point.
pub open spec fn holdem_state_ok(
    st: State,
    automations: Seq<Automation>,
    ante_trimming_status: bool,
    raw_antes: Map<usize, i64>,
    raw_blinds_or_straddles: Map<usize, i64>,
    small_bet: i64,
    late_bet: i64,
    max_raises: Option<usize>,
    raw_starting_stacks: Map<usize, i64>,
    player_count: int,
    mode: Mode,
    structure: BettingStructure,
    hand_types: Seq<HandType>,
    hole_count: int,
) -> bool {
    &&& st.wf()
    &&& st.status
    &&& st.player_count == player_count
    &&& st.betting_structure == structure
    &&& st.mode == mode
    &&& st.ante_trimming_status == ante_trimming_status
    &&& st.bring_in == 0
    &&& st.automations@ == automations
    &&& holdem_schedule(st.streets@, hole_count, small_bet, late_bet, max_raises)
    &&& st.deck@ == crate::utilities::deck_of(crate::utilities::RankOrder::standard_spec())
    &&& st.hand_types@ == hand_types
    &&& st.starting_stacks@.len() == player_count
    &&& (forall|i: int|
        0 <= i < player_count ==> #[trigger] st.starting_stacks@[i] == spec_cleaned(
            raw_starting_stacks,
            i,
        ))
    &&& st.antes@.len() == player_count
    &&& (forall|i: int|
        0 <= i < player_count ==> #[trigger] st.antes@[i] == spec_cleaned(raw_antes, i))
    &&& st.blinds_or_straddles@.len() == player_count
    &&& (forall|i: int|
        0 <= i < player_count ==> #[trigger] st.blinds_or_straddles@[i] == spec_cleaned(
            raw_blinds_or_straddles,
            i,
        ))
    &&& (forall|i: int| 0 <= i < player_count ==> #[trigger] st.statuses@[i])
    &&& st.at_rest()
}

/// Builds one hold'em-shaped state: validates the bets through the street
/// schedule and the player configuration through the state builder.
fn make_holdem_state(
    automations: Vec<Automation>,
    ante_trimming_status: bool,
    raw_antes: std::collections::BTreeMap<usize, i64>,
    raw_blinds_or_straddles: std::collections::BTreeMap<usize, i64>,
    small_bet: i64,
    late_bet: i64,
    max_raises: Option<usize>,
    raw_starting_stacks: std::collections::BTreeMap<usize, i64>,
    player_count: usize,
    mode: Mode,
    structure: BettingStructure,
    hand_types: Vec<HandType>,
    hole_count: usize,
) -> (r: Result<State, ConfigError>)
    ensures
        r is Ok <==> (small_bet > 0 && late_bet > 0 && spec_config_ok(
            raw_antes@,
            raw_blinds_or_straddles@,
            raw_starting_stacks@,
            player_count as int,
        )),
        r matches Ok(st) ==> holdem_state_ok(
            st,
            automations@,
            ante_trimming_status,
            raw_antes@,
            raw_blinds_or_straddles@,
            small_bet,
            late_bet,
            max_raises,
            raw_starting_stacks@,
            player_count as int,
            mode,
            structure,
            hand_types@,
            hole_count as int,
        ),
{
    broadcast use vstd::std_specs::btree::group_btree_axioms;

    let ghost ra = raw_antes@;
    let ghost rb = raw_blinds_or_straddles@;
    let ghost rs = raw_starting_stacks@;
    let streets = match holdem_streets(hole_count, small_bet, late_bet, max_raises) {
        Ok(v) => v,
        Err(e) => {
            return Err(e);
        },
    };
    let ghost sv = streets@;
    let b = StateBuilder::new(player_count).automations(automations).streets(streets).deck(
        Deck::standard(),
    ).hand_types(hand_types).betting_structure(structure).ante_trimming_status(
        ante_trimming_status,
    ).raw_antes(raw_antes).raw_blinds_or_straddles(raw_blinds_or_straddles).bring_in(
        0,
    ).raw_starting_stacks(raw_starting_stacks).mode(mode);
    proof {
        assert(b.player_count == player_count);
        assert(b.streets@ == sv);
        assert forall|i: int| 0 <= i < player_count implies #[trigger] b.clean_ante(i)
            == spec_cleaned(ra, i) && b.clean_stack(i) == spec_cleaned(rs, i) && b.clean_blind(i)
            == spec_cleaned(rb, i) by {}
        assert(b.clean_stacks_seq() =~= Seq::new(
            player_count as nat,
            |i: int| spec_cleaned(rs, i),
        ));
    }
    let r = b.build();
    proof {
        match &r {
            Result::Ok(st) => {
                assert(st.antes@.len() == player_count && st.starting_stacks@.len() == player_count
                    && st.blinds_or_straddles@.len() == player_count);
                assert forall|i: int| 0 <= i < player_count implies #[trigger] spec_cleaned(
                    ra,
                    i,
                ) >= 0 by {
                    assert(st.antes@[i] >= 0);
                }
                assert forall|i: int| 0 <= i < player_count implies #[trigger] spec_cleaned(
                    rs,
                    i,
                ) >= 0 by {
                    assert(st.starting_stacks@[i] >= 0);
                }
                assert forall|i: int| 0 <= i < player_count implies #[trigger] spec_cleaned(
                    rb,
                    i,
                ) != i64::MIN by {
                    assert(st.blinds_or_straddles@[i] > i64::MIN);
                }
                assert(st.starting_stacks@ =~= Seq::new(
                    player_count as nat,
                    |i: int| spec_cleaned(rs, i),
                ));
                assert(spec_config_ok(ra, rb, rs, player_count as int));
            },
            Result::Err(_) => {
                assert(!(spec_config_ok(ra, rb, rs, player_count as int)));
            },
        }
    }
    r
}

/// Fixed-limit Texas hold'em.
pub struct FixedLimitTexasHoldem;

impl FixedLimitTexasHoldem {
    /// Builds a fixed-limit hold'em state: two face-down hole cards, the
    /// flop, turn, and river behind burns, small bets on the early
    /// streets, big bets later, at most four raises per street, the
    /// standard high hand at showdown. Succeeds exactly when both bets
    /// are positive and the player configuration is buildable.
    pub fn create_state(
        automations: Vec<Automation>,
        ante_trimming_status: bool,
        raw_antes: std::collections::BTreeMap<usize, i64>,
        raw_blinds_or_straddles: std::collections::BTreeMap<usize, i64>,
        small_bet: i64,
        big_bet: i64,
        raw_starting_stacks: std::collections::BTreeMap<usize, i64>,
        player_count: usize,
        mode: Mode,
    ) -> (r: Result<State, ConfigError>)
        ensures
            r is Ok <==> (small_bet > 0 && big_bet > 0 && spec_config_ok(
                raw_antes@,
                raw_blinds_or_straddles@,
                raw_starting_stacks@,
                player_count as int,
            )),
            r matches Ok(st) ==> holdem_state_ok(
                st,
                automations@,
                ante_trimming_status,
                raw_antes@,
                raw_blinds_or_straddles@,
                small_bet,
                big_bet,
                Option::Some(4usize),
                raw_starting_stacks@,
                player_count as int,
                mode,
                BettingStructure::FixedLimit,
                seq![HandType::StandardHighHand],
                2,
            ),
    {
        let hand_types = vec![HandType::StandardHighHand];
        proof {
            assert(hand_types@ =~= seq![HandType::StandardHighHand]);
        }
        make_holdem_state(
            automations,
            ante_trimming_status,
            raw_antes,
            raw_blinds_or_straddles,
            small_bet,
            big_bet,
            Option::Some(4),
            raw_starting_stacks,
            player_count,
            mode,
            BettingStructure::FixedLimit,
            hand_types,
            2,
        )
    }
}

/// No-limit Texas hold'em.
pub struct NoLimitTexasHoldem;

impl NoLimitTexasHoldem {
    /// Builds a no-limit hold'em state: two face-down hole cards, the
    /// flop, turn, and river behind burns, one minimum bet throughout,
    /// unlimited raising, the standard high hand at showdown. Succeeds
    /// exactly when the minimum bet is positive and the player
    /// configuration is buildable.
    pub fn create_state(
        automations: Vec<Automation>,
        ante_trimming_status: bool,
        raw_antes: std::collections::BTreeMap<usize, i64>,
        raw_blinds_or_straddles: std::collections::BTreeMap<usize, i64>,
        min_bet: i64,
        raw_starting_stacks: std::collections::BTreeMap<usize, i64>,
        player_count: usize,
        mode: Mode,
    ) -> (r: Result<State, ConfigError>)
        ensures
            r is Ok <==> (min_bet > 0 && spec_config_ok(
                raw_antes@,
                raw_blinds_or_straddles@,
                raw_starting_stacks@,
                player_count as int,
            )),
            r matches Ok(st) ==> holdem_state_ok(
                st,
                automations@,
                ante_trimming_status,
                raw_antes@,
                raw_blinds_or_straddles@,
                min_bet,
                min_bet,
                Option::None,
                raw_starting_stacks@,
                player_count as int,
                mode,
                BettingStructure::NoLimit,
                seq![HandType::StandardHighHand],
                2,
            ),
    {
        let hand_types = vec![HandType::StandardHighHand];
        proof {
            assert(hand_types@ =~= seq![HandType::StandardHighHand]);
        }
        make_holdem_state(
            automations,
            ante_trimming_status,
            raw_antes,
            raw_blinds_or_straddles,
            min_bet,
            min_bet,
            Option::None,
            raw_starting_stacks,
            player_count,
            mode,
            BettingStructure::NoLimit,
            hand_types,
            2,
        )
    }
}

/// Pot-limit Omaha hold'em.
pub struct PotLimitOmahaHoldem;

impl PotLimitOmahaHoldem {
    /// Builds a pot-limit Omaha state: four face-down hole cards, the
    /// flop, turn, and river behind burns, one minimum bet throughout,
    /// raises capped at the pot, the Omaha hand at showdown. Succeeds
    /// exactly when the minimum bet is positive and the player
    /// configuration is buildable.
    pub fn create_state(
        automations: Vec<Automation>,
        ante_trimming_status: bool,
        raw_antes: std::collections::BTreeMap<usize, i64>,
        raw_blinds_or_straddles: std::collections::BTreeMap<usize, i64>,
        min_bet: i64,
        raw_starting_stacks: std::collections::BTreeMap<usize, i64>,
        player_count: usize,
        mode: Mode,
    ) -> (r: Result<State, ConfigError>)
        ensures
            r is Ok <==> (min_bet > 0 && spec_config_ok(
                raw_antes@,
                raw_blinds_or_straddles@,
                raw_starting_stacks@,
                player_count as int,
            )),
            r matches Ok(st) ==> holdem_state_ok(
                st,
                automations@,
                ante_trimming_status,
                raw_antes@,
                raw_blinds_or_straddles@,
                min_bet,
                min_bet,
                Option::None,
                raw_starting_stacks@,
                player_count as int,
                mode,
                BettingStructure::PotLimit,
                seq![HandType::OmahaHoldemHand],
                4,
            ),
    {
        let hand_types = vec![HandType::OmahaHoldemHand];
        proof {
            assert(hand_types@ =~= seq![HandType::OmahaHoldemHand]);
        }
        make_holdem_state(
            automations,
            ante_trimming_status,
            raw_antes,
            raw_blinds_or_straddles,
            min_bet,
            min_bet,
            Option::None,
            raw_starting_stacks,
            player_count,
            mode,
            BettingStructure::PotLimit,
            hand_types,
            4,
        )
    }
}

} // verus!
