//! The betting state machine: blinds, betting rounds, side pots, and chip
//! conservation.

use std::collections::BTreeMap;

use pokerkit::games::{FixedLimitTexasHoldem, NoLimitTexasHoldem};
use pokerkit::state::{Automation, ConfigError, Mode, Opening, State, StateBuilder, Street};

fn full_automations() -> Vec<Automation> {
    vec![
        Automation::AntePosting,
        Automation::BetCollection,
        Automation::BlindOrStraddlePosting,
        Automation::CardBurning,
        Automation::HoleDealing,
        Automation::BoardDealing,
    ]
}

fn stacks_of(values: &[i64]) -> BTreeMap<usize, i64> {
    let mut m = BTreeMap::new();
    for (i, v) in values.iter().enumerate() {
        m.insert(i, *v);
    }
    m
}

fn total_chips(state: &State) -> i64 {
    let stacks: i64 = state.stacks.iter().sum();
    let bets: i64 = state.bets.iter().sum();
    let payoffs: i64 = state.payoffs.iter().sum();
    stacks + bets - payoffs
}

#[test]
fn heads_up_blinds_swap() {
    // Heads up, blinds one and two: the effective blinds swap, and the
    // player who posts the small blind acts first pre-flop.
    let mut blinds = BTreeMap::new();
    blinds.insert(0, 1);
    blinds.insert(1, 2);
    let state = NoLimitTexasHoldem::create_state(
        full_automations(),
        false,
        BTreeMap::new(),
        blinds,
        2,
        stacks_of(&[100, 100]),
        2,
        Mode::CashGame,
    )
    .unwrap();
    assert_eq!(state.get_effective_blind_or_straddle(0), 2);
    assert_eq!(state.get_effective_blind_or_straddle(1), 1);
    assert_eq!(state.bets, vec![2, 1]);
    assert_eq!(state.actor_index(), Some(1));
}

#[test]
fn all_in_side_pots() {
    // Three all-in stacks of 100, 50, and 200 make a 150 main pot for all
    // three, a 100 side pot for the two big stacks, and a 100 pot returned
    // to the biggest stack alone.
    let mut state = NoLimitTexasHoldem::create_state(
        full_automations(),
        false,
        BTreeMap::new(),
        BTreeMap::new(),
        2,
        stacks_of(&[100, 50, 200]),
        3,
        Mode::CashGame,
    )
    .unwrap();
    let start_total = total_chips(&state);
    state.complete_bet_or_raise_to(100, None).unwrap();
    state.check_or_call(None).unwrap();
    state.complete_bet_or_raise_to(200, None).unwrap();

    let pots = state.pots();
    assert_eq!(pots.len(), 3);
    assert_eq!(pots[0].amount(), 150);
    assert_eq!(pots[0].player_indices, vec![0, 1, 2]);
    assert_eq!(pots[1].amount(), 100);
    assert_eq!(pots[1].player_indices, vec![0, 2]);
    assert_eq!(pots[2].amount(), 100);
    assert_eq!(pots[2].player_indices, vec![2]);
    let pot_total: i64 = pots.iter().map(|p| p.amount()).sum();
    assert_eq!(pot_total, 350);
    // Conservation: nothing appeared or vanished.
    assert_eq!(total_chips(&state), start_total);
    assert_eq!(start_total, 350);
}

#[test]
fn betting_round_with_raises() {
    let mut blinds = BTreeMap::new();
    blinds.insert(0, 4);
    blinds.insert(1, 8);
    let mut state = NoLimitTexasHoldem::create_state(
        full_automations(),
        true,
        BTreeMap::new(),
        blinds,
        8,
        stacks_of(&[800, 800, 800, 800, 800, 800]),
        6,
        Mode::CashGame,
    )
    .unwrap();
    assert_eq!(total_chips(&state), 4800);
    // Under the gun acts first.
    assert_eq!(state.actor_index(), Some(2));
    state.fold(None).unwrap();
    state.fold(None).unwrap();
    let op = state.complete_bet_or_raise_to(25, None).unwrap();
    assert_eq!(op.player_index, 4);
    state.fold(None).unwrap();
    let call = state.check_or_call(None).unwrap();
    assert_eq!(call.player_index, 0);
    assert_eq!(call.amount, 21);
    let reraise = state.complete_bet_or_raise_to(75, None).unwrap();
    assert_eq!(reraise.player_index, 1);
    state.check_or_call(None).unwrap();
    state.check_or_call(None).unwrap();
    // The round closed and the bets went into the pot.
    assert_eq!(state.bets, vec![0, 0, 0, 0, 0, 0]);
    let pots = state.pots();
    let pot_total: i64 = pots.iter().map(|p| p.amount()).sum();
    assert_eq!(pot_total, 225);
    assert_eq!(total_chips(&state), 4800);
}

#[test]
fn raise_below_minimum_is_refused() {
    let mut blinds = BTreeMap::new();
    blinds.insert(0, 4);
    blinds.insert(1, 8);
    let mut state = NoLimitTexasHoldem::create_state(
        full_automations(),
        false,
        BTreeMap::new(),
        blinds,
        8,
        stacks_of(&[800, 800, 800]),
        3,
        Mode::CashGame,
    )
    .unwrap();
    // A raise to nine is neither a full raise nor all in.
    assert!(state.complete_bet_or_raise_to(9, None).is_err());
    // A "raise" below the standing bet is refused outright.
    assert!(state.complete_bet_or_raise_to(4, None).is_err());
    // A raise beyond the stack is refused.
    assert!(state.complete_bet_or_raise_to(900, None).is_err());
    // A legal minimum raise passes.
    assert!(state.complete_bet_or_raise_to(16, None).is_ok());
}

#[test]
fn fold_removes_player() {
    let mut blinds = BTreeMap::new();
    blinds.insert(0, 4);
    blinds.insert(1, 8);
    let mut state = NoLimitTexasHoldem::create_state(
        full_automations(),
        false,
        BTreeMap::new(),
        blinds,
        8,
        stacks_of(&[800, 800, 800]),
        3,
        Mode::CashGame,
    )
    .unwrap();
    let op = state.fold(None).unwrap();
    assert_eq!(op.player_index, 2);
    assert!(!state.statuses[2]);
    assert_eq!(total_chips(&state), 2400);
}

#[test]
fn ante_posting_and_collection() {
    let mut antes = BTreeMap::new();
    antes.insert(0, 5);
    antes.insert(1, 5);
    antes.insert(2, 5);
    let state = NoLimitTexasHoldem::create_state(
        full_automations(),
        false,
        antes,
        BTreeMap::new(),
        2,
        stacks_of(&[100, 100, 100]),
        3,
        Mode::Tournament,
    )
    .unwrap();
    // All antes were posted and collected before the deal.
    assert_eq!(state.stacks, vec![95, 95, 95]);
    assert_eq!(state.bets, vec![0, 0, 0]);
    assert_eq!(state.payoffs, vec![-5, -5, -5]);
    assert_eq!(total_chips(&state), 300);
}

#[test]
fn effective_ante_capped_by_stack() {
    let mut antes = BTreeMap::new();
    antes.insert(0, 50);
    antes.insert(1, 50);
    antes.insert(2, 50);
    let state = NoLimitTexasHoldem::create_state(
        full_automations(),
        false,
        antes,
        BTreeMap::new(),
        2,
        stacks_of(&[30, 100, 100]),
        3,
        Mode::Tournament,
    )
    .unwrap();
    // The short stack antes everything it has.
    assert_eq!(state.stacks[0], 0);
    assert_eq!(state.payoffs[0], -30);
}

#[test]
fn builder_rejects_bad_configurations() {
    assert!(matches!(
        StateBuilder::new(1).streets(vec![Street::new(
            false,
            vec![false; 2],
            0,
            false,
            Opening::Position,
            2,
            None
        )
        .unwrap()])
        .build(),
        Err(ConfigError::TooFewPlayers)
    ));
    assert!(matches!(StateBuilder::new(3).build(), Err(ConfigError::NoStreets)));
    assert!(matches!(
        Street::new(false, vec![false; 2], 0, true, Opening::Position, 2, None),
        Err(ConfigError::HoleDealingAndDrawing)
    ));
    assert!(matches!(
        Street::new(false, vec![], 0, false, Opening::Position, 0, None),
        Err(ConfigError::NonPositiveMinBet)
    ));
}

#[test]
fn deal_progression_reaches_board() {
    let mut blinds = BTreeMap::new();
    blinds.insert(0, 4);
    blinds.insert(1, 8);
    let mut state = NoLimitTexasHoldem::create_state(
        full_automations(),
        false,
        BTreeMap::new(),
        blinds,
        8,
        stacks_of(&[800, 800]),
        2,
        Mode::CashGame,
    )
    .unwrap();
    // Both players got their two hole cards.
    assert_eq!(state.hole_cards[0].len(), 2);
    assert_eq!(state.hole_cards[1].len(), 2);
    assert_eq!(state.board_cards[0].len(), 0);
    // Pre-flop: small blind calls, big blind checks; the flop comes.
    state.check_or_call(None).unwrap();
    state.check_or_call(None).unwrap();
    assert_eq!(state.board_cards[0].len(), 3);
    assert_eq!(total_chips(&state), 1600);
}

#[test]
fn manual_collection_awaits_call() {
    // Without the collection automation, the engine waits for the caller.
    let mut antes = BTreeMap::new();
    antes.insert(0, 5);
    antes.insert(1, 5);
    let mut state = NoLimitTexasHoldem::create_state(
        vec![Automation::AntePosting],
        false,
        antes,
        BTreeMap::new(),
        2,
        stacks_of(&[100, 100]),
        2,
        Mode::Tournament,
    )
    .unwrap();
    assert!(state.bet_collection_status);
    assert_eq!(state.bets, vec![5, 5]);
    let op = state.collect_bets(None).unwrap();
    assert_eq!(op.bets, vec![5, 5]);
    assert_eq!(state.bets, vec![0, 0]);
    // A second collection has nothing to take.
    assert!(state.collect_bets(None).is_err());
}

#[test]
fn actor_queue_well_formed_during_betting() {
    let mut blinds = BTreeMap::new();
    blinds.insert(0, 4);
    blinds.insert(1, 8);
    let mut state = NoLimitTexasHoldem::create_state(
        full_automations(),
        false,
        BTreeMap::new(),
        blinds,
        8,
        stacks_of(&[800, 800, 800, 800]),
        4,
        Mode::CashGame,
    )
    .unwrap();
    let check_queue = |state: &State| {
        let mut seen = vec![false; state.player_count];
        for &p in state.actor_indices.iter() {
            assert!(p < state.player_count);
            assert!(state.statuses[p]);
            assert!(state.stacks[p] > 0);
            assert!(!seen[p], "queued twice");
            seen[p] = true;
        }
    };
    check_queue(&state);
    state.fold(None).unwrap();
    check_queue(&state);
    state.complete_bet_or_raise_to(24, None).unwrap();
    check_queue(&state);
    state.check_or_call(None).unwrap();
    check_queue(&state);
}

#[test]
fn fixed_limit_raises_are_fixed_and_capped() {
    let mut blinds = BTreeMap::new();
    blinds.insert(0, 1);
    blinds.insert(1, 2);
    let mut state = FixedLimitTexasHoldem::create_state(
        full_automations(),
        false,
        BTreeMap::new(),
        blinds,
        2,
        4,
        stacks_of(&[100, 100, 100]),
        3,
        Mode::CashGame,
    )
    .unwrap();
    // A fixed-limit raise ignores the requested amount: it completes to
    // one full small bet over the standing bet.
    let op = state.complete_bet_or_raise_to(999, None).unwrap();
    assert_eq!(op.amount, 4);
    let op2 = state.complete_bet_or_raise_to(0, None).unwrap();
    assert_eq!(op2.amount, 6);
    let op3 = state.complete_bet_or_raise_to(0, None).unwrap();
    assert_eq!(op3.amount, 8);
    let op4 = state.complete_bet_or_raise_to(0, None).unwrap();
    assert_eq!(op4.amount, 10);
    // The street's raise budget is spent.
    assert!(state.complete_bet_or_raise_to(0, None).is_err());
    assert_eq!(total_chips(&state), 300);
}

#[test]
fn ante_trimming_pools_antes() {
    // Uniform antes of 10 with one short stack of 5: without trimming the
    // excess antes form a side pot the short stack cannot win; with
    // trimming every ante pools into one main pot that all three contest.
    let mut antes = BTreeMap::new();
    antes.insert(0, 10);
    antes.insert(1, 10);
    antes.insert(2, 10);
    let trimmed = NoLimitTexasHoldem::create_state(
        full_automations(),
        true,
        antes.clone(),
        BTreeMap::new(),
        2,
        stacks_of(&[100, 5, 100]),
        3,
        Mode::CashGame,
    )
    .unwrap();
    let pots = trimmed.pots();
    assert_eq!(pots.len(), 1);
    assert_eq!(pots[0].amount(), 25);
    assert_eq!(pots[0].player_indices, vec![0, 1, 2]);

    let untrimmed = NoLimitTexasHoldem::create_state(
        full_automations(),
        false,
        antes,
        BTreeMap::new(),
        2,
        stacks_of(&[100, 5, 100]),
        3,
        Mode::CashGame,
    )
    .unwrap();
    let pots2 = untrimmed.pots();
    assert_eq!(pots2.len(), 2);
    assert_eq!(pots2[0].amount(), 15);
    assert_eq!(pots2[0].player_indices, vec![0, 1, 2]);
    assert_eq!(pots2[1].amount(), 10);
    assert_eq!(pots2[1].player_indices, vec![0, 2]);
}
