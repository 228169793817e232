//! Card parsing and the small shared helpers.

use num_bigint::BigInt;
use pokerkit::utilities::{
    clean_values, div_mod, max_or_none, min_or_none, parse_time, parse_value, rotated, shuffled,
    sign, Card, Deck, Rank, Suit, TimeOfDay, ValueParseError,
};
use std::collections::BTreeMap;

#[test]
fn parse_simple_cards() {
    let cards = Card::parse_cards("AcKd").unwrap();
    assert_eq!(cards.len(), 2);
    assert_eq!(cards[0], Card { rank: Rank::Ace, suit: Suit::Club });
    assert_eq!(cards[1], Card { rank: Rank::King, suit: Suit::Diamond });
}

#[test]
fn parse_ten_shorthand() {
    let cards = Card::parse_cards("10c").unwrap();
    assert_eq!(cards, vec![Card { rank: Rank::Ten, suit: Suit::Club }]);
}

#[test]
fn parse_with_commas_and_spaces() {
    let cards = Card::parse_cards("Ac,Kd 2h").unwrap();
    assert_eq!(cards.len(), 3);
    assert_eq!(cards[2], Card { rank: Rank::Deuce, suit: Suit::Heart });
}

#[test]
fn parse_unknown_tokens() {
    let cards = Card::parse_cards("?? ?").unwrap();
    assert_eq!(cards.len(), 2);
    assert_eq!(cards[0], Card::unknown());
    assert_eq!(cards[1], Card::unknown());
}

#[test]
fn parse_errors() {
    assert!(Card::parse_cards("A").is_err());
    assert!(Card::parse_cards("Xc").is_err());
    assert!(Card::parse_cards("Ax").is_err());
}

#[test]
fn card_predicates() {
    let suited = Card::parse_cards("AcKc").unwrap();
    assert!(Card::are_suited(&suited));
    assert!(!Card::are_paired(&suited));
    assert!(!Card::are_rainbow(&suited));
    let paired = Card::parse_cards("AcAd").unwrap();
    assert!(Card::are_paired(&paired));
    assert!(Card::are_rainbow(&paired));
}

#[test]
fn decks_have_expected_sizes() {
    assert_eq!(Deck::standard().len(), 52);
    assert_eq!(Deck::short_deck_holdem().len(), 36);
}

#[test]
fn shuffle_keeps_the_cards() {
    let deck = Deck::standard();
    let mixed = shuffled(&deck);
    assert_eq!(mixed.len(), 52);
    for card in deck.iter() {
        assert!(mixed.contains(card));
    }
}

#[test]
fn clean_values_fills_and_clips() {
    let mut m = BTreeMap::new();
    m.insert(0usize, 7i64);
    m.insert(2usize, 9i64);
    m.insert(9usize, 100i64);
    assert_eq!(clean_values(&m, 4), vec![7, 0, 9, 0]);
}

#[test]
fn div_mod_splits() {
    assert_eq!(div_mod(7, 3), (2, 1));
    assert_eq!(div_mod(9, 3), (3, 0));
    assert_eq!(div_mod(0, 5), (0, 0));
}

#[test]
fn sign_of_values() {
    assert_eq!(sign(42), 1);
    assert_eq!(sign(-42), -1);
    assert_eq!(sign(0), 0);
}

#[test]
fn min_max_or_none() {
    assert_eq!(min_or_none(&vec![None, Some(3), Some(1)]), Some(1));
    assert_eq!(max_or_none(&vec![None, Some(3), Some(1)]), Some(3));
    assert_eq!(min_or_none(&vec![None, None]), None);
}

#[test]
fn rotation() {
    let v = vec![1i64, 2, 3, 4];
    let r = rotated(&v, 1);
    let out: Vec<i64> = r.into_iter().collect();
    assert_eq!(out, vec![4, 1, 2, 3]);
    let l = rotated(&v, -1);
    let out2: Vec<i64> = l.into_iter().collect();
    assert_eq!(out2, vec![2, 3, 4, 1]);
}

#[test]
fn parse_value_integers() {
    assert_eq!(parse_value("1,234").unwrap(), BigInt::from(1234));
    assert_eq!(parse_value("-56").unwrap(), BigInt::from(-56));
}

#[test]
fn parse_value_rejections() {
    assert!(matches!(parse_value("12.5"), Err(ValueParseError::DecimalUnsupported)));
    assert!(matches!(parse_value("oak"), Err(ValueParseError::NotANumber)));
}

#[test]
fn parse_time_of_day() {
    assert_eq!(
        parse_time("13:45:01"),
        Some(TimeOfDay { hour: 13, minute: 45, second: 1 })
    );
    assert_eq!(parse_time("25:00:00"), None);
    assert_eq!(parse_time("nonsense"), None);
}

#[test]
fn card_text_round_trip() {
    let cards = Card::parse_cards("AcTd9h2s??").unwrap();
    for card in &cards {
        let text: String = card.to_chars().into_iter().collect();
        let back = Card::parse_cards(&text).unwrap();
        assert_eq!(back.len(), 1);
        assert_eq!(back[0], *card);
    }
    assert_eq!(
        Card { rank: Rank::Queen, suit: Suit::Spade }.to_chars(),
        vec!['Q', 's']
    );
}
