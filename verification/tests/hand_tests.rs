//! Best-hand selection across the variants.

use pokerkit::hands::{BadugiHand, HandType, KuhnPokerHand};
use pokerkit::lookups::{Label, Lookup};
use pokerkit::utilities::{Card, Rank, Suit};

#[test]
fn omaha_uses_two_hole_and_three_board() {
    let hand = HandType::OmahaHoldemHand.from_game("AcAdKsKh", "AhKdQc2s2d").unwrap();
    assert_eq!(hand.cards().len(), 5);
    assert!(matches!(hand.entry().label, Label::FullHouse));
    // Exactly two hole cards may be used, so the third king is out of
    // reach: the best hand is aces full of twos, from the two hole aces
    // with the board ace and the board pair of twos.
    let expected = Lookup::standard().get_entry("AcAdAh2s2d").unwrap();
    assert_eq!(hand.entry().index, expected.index);
    // It still beats kings full of twos, the best all-kings alternative.
    let kings_full = Lookup::standard().get_entry("KsKhKd2s2d").unwrap();
    assert!(hand.entry().index > kings_full.index);
}

#[test]
fn standard_high_from_game_picks_best_five() {
    let hand = HandType::StandardHighHand.from_game("AcKc", "QcJcTc2d7h").unwrap();
    assert!(matches!(hand.entry().label, Label::StraightFlush));
}

#[test]
fn standard_low_prefers_weakest_five() {
    let high = HandType::StandardHighHand.from_game("AcAd", "AhKsQc2d2h").unwrap();
    let low = HandType::StandardLowHand.from_game("AcAd", "AhKsQc2d2h").unwrap();
    // The low variant keeps the weaker strength index.
    assert!(low.entry().index < high.entry().index);
}

#[test]
fn badugi_from_game_prefers_four_rainbow() {
    let lookup = Lookup::badugi();
    let hand = BadugiHand::from_game("Ac2d", "3h4s5c", &lookup).unwrap();
    assert_eq!(hand.cards().len(), 4);
}

#[test]
fn badugi_from_game_falls_back_to_fewer_cards() {
    let lookup = Lookup::badugi();
    // Only clubs and diamonds: the best badugi uses two cards.
    let hand = BadugiHand::from_game("Ac2d", "3c4d", &lookup).unwrap();
    assert_eq!(hand.cards().len(), 2);
}

#[test]
fn badugi_new_rejects_repeated_suit() {
    let lookup = Lookup::badugi();
    let cards = vec![
        Card { rank: Rank::Ace, suit: Suit::Club },
        Card { rank: Rank::Deuce, suit: Suit::Club },
    ];
    assert!(BadugiHand::new(cards, &lookup).is_err());
}

#[test]
fn kuhn_from_game_takes_highest_card() {
    let lookup = Lookup::kuhn_poker();
    let hand = KuhnPokerHand::from_game("Jc Kd", "", &lookup).unwrap();
    assert_eq!(hand.cards().len(), 1);
    let king = lookup.get_entry("Kd").unwrap();
    assert_eq!(hand.entry().index, king.index);
}

#[test]
fn hand_ordering_follows_low_flag() {
    let strong = HandType::StandardHighHand.from_game("AcKc", "QcJcTc2d7h").unwrap();
    let weak = HandType::StandardHighHand.from_game("2c7d", "3h4s9c8d2s").unwrap();
    assert!(strong.wins_against(&weak));
    assert!(!weak.wins_against(&strong));
}

#[test]
fn from_game_rejects_bad_cards() {
    assert!(HandType::StandardHighHand.from_game("Xx", "").is_err());
    assert!(HandType::StandardHighHand.from_game("AcKd", "Qh").is_err());
}

#[test]
fn hand_type_card_counts() {
    assert_eq!(HandType::StandardHighHand.card_count(), Some(5));
    assert_eq!(HandType::KuhnPokerHand.card_count(), Some(1));
    assert_eq!(HandType::BadugiHand.card_count(), None);
}

#[test]
fn hand_type_low_flags() {
    assert!(!HandType::StandardHighHand.low());
    assert!(HandType::StandardLowHand.low());
    assert!(HandType::BadugiHand.low());
    assert!(!HandType::OmahaHoldemHand.low());
    assert!(HandType::OmahaEightOrBetterLowHand.low());
}
