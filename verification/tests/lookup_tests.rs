//! Lookup-table behavior: classification labels, relative strengths, and
//! the dense index range.

use pokerkit::lookups::{hash_ranks, Label, Lookup};
use pokerkit::utilities::Rank;

#[test]
fn standard_four_of_a_kind_label() {
    let lookup = Lookup::standard();
    let e = lookup.get_entry("AcAdAhAsKc").unwrap();
    assert!(matches!(e.label, Label::FourOfAKind));
}

#[test]
fn standard_royal_flush_is_strongest() {
    let lookup = Lookup::standard();
    let e = lookup.get_entry("AcKcQcJcTc").unwrap();
    assert!(matches!(e.label, Label::StraightFlush));
    let mut max_index = 0;
    for row in lookup.entries().iter() {
        if row.entry.index > max_index {
            max_index = row.entry.index;
        }
    }
    assert_eq!(e.index, max_index);
}

#[test]
fn standard_distinct_strength_count() {
    // The classic count of distinct five-card strengths.
    let lookup = Lookup::standard();
    let mut max_index = 0;
    for row in lookup.entries().iter() {
        if row.entry.index > max_index {
            max_index = row.entry.index;
        }
    }
    assert_eq!(max_index + 1, 7462);
}

#[test]
fn wheel_is_weakest_straight() {
    let lookup = Lookup::standard();
    let wheel = lookup.get_entry("Ac2d3h4s5c").unwrap();
    let six_high = lookup.get_entry("2c3d4h5s6c").unwrap();
    assert!(matches!(wheel.label, Label::Straight));
    assert!(matches!(six_high.label, Label::Straight));
    assert!(wheel.index < six_high.index);
}

#[test]
fn badugi_requires_rainbow() {
    let lookup = Lookup::badugi();
    assert!(lookup.get_entry("Ac2d3h4s").is_ok());
    assert!(lookup.get_entry("Ac2d3h4d").is_err());
}

#[test]
fn badugi_more_cards_beat_fewer() {
    let lookup = Lookup::badugi();
    let four = lookup.get_entry("Ac2d3h4s").unwrap();
    let three = lookup.get_entry("Ac2d3h").unwrap();
    // Lower index is better in badugi; four distinct cards beat three.
    assert!(four.index < three.index);
}

#[test]
fn entry_density_standard() {
    // The indices fill a contiguous range starting at zero.
    let lookup = Lookup::standard();
    let mut max_index: i32 = 0;
    for row in lookup.entries().iter() {
        assert!(row.entry.index >= 0);
        if row.entry.index > max_index {
            max_index = row.entry.index;
        }
    }
    let n = (max_index + 1) as usize;
    let mut seen = vec![false; n];
    for row in lookup.entries().iter() {
        seen[row.entry.index as usize] = true;
    }
    for v in seen.iter() {
        assert!(*v);
    }
}

#[test]
fn label_descriptions() {
    assert_eq!(Label::HighCard.description(), "High card");
    assert_eq!(Label::StraightFlush.description(), "Straight flush");
    assert_eq!(Label::FullHouse.description(), "Full house");
}

#[test]
fn straight_label_beats_trips() {
    let lookup = Lookup::standard();
    let straight = lookup.get_entry("5c6d7h8s9c").unwrap();
    let trips = lookup.get_entry("AcAdAhKsQc").unwrap();
    assert!(matches!(straight.label, Label::Straight));
    assert!(matches!(trips.label, Label::ThreeOfAKind));
    assert!(straight.index > trips.index);
}

#[test]
fn flush_beats_straight() {
    let lookup = Lookup::standard();
    let flush = lookup.get_entry("2c5c9cJcKc").unwrap();
    let straight = lookup.get_entry("9cTdJhQsKc").unwrap();
    assert!(matches!(flush.label, Label::Flush));
    assert!(flush.index > straight.index);
}

#[test]
fn short_deck_flush_beats_full_house() {
    let lookup = Lookup::short_deck_holdem();
    let flush = lookup.get_entry("6c8c9cJcKc").unwrap();
    let full = lookup.get_entry("6c6d6h7s7c").unwrap();
    assert!(matches!(flush.label, Label::Flush));
    assert!(matches!(full.label, Label::FullHouse));
    assert!(flush.index > full.index);
}

#[test]
fn eight_or_better_low_ranks() {
    let lookup = Lookup::eight_or_better();
    // Lower cards make a better (lower-indexed) eight-or-better hand.
    let wheel = lookup.get_entry("Ac2d3h4s5c").unwrap();
    let worse = lookup.get_entry("4c5d6h7s8c").unwrap();
    assert!(wheel.index < worse.index);
    // Hands above eight do not register.
    assert!(lookup.get_entry("Ac2d3h4s9c").is_err());
    // A paired hand does not register.
    assert!(lookup.get_entry("Ac2d2h4s5c").is_err());
}

#[test]
fn kuhn_poker_king_beats_queen_and_jack() {
    let lookup = Lookup::kuhn_poker();
    let k = lookup.get_entry("Kc").unwrap();
    let q = lookup.get_entry("Qd").unwrap();
    let j = lookup.get_entry("Jh").unwrap();
    assert!(k.index > q.index);
    assert!(q.index > j.index);
}

#[test]
fn invalid_hands_are_refused() {
    let lookup = Lookup::standard();
    // Too few cards for a registered five-card strength.
    assert!(lookup.get_entry("AcKd").is_err());
    assert!(!lookup.has_entry("AcKd"));
    assert!(lookup.get_entry_or_none("AcKd").is_none());
    // A malformed string.
    assert!(lookup.get_entry("Xy").is_err());
}

#[test]
fn get_key_reports_suitedness() {
    let lookup = Lookup::standard();
    let (_, suited) = lookup.get_key("AcKcQcJcTc").unwrap();
    assert!(suited);
    let (_, unsuited) = lookup.get_key("AcKdQcJcTc").unwrap();
    assert!(!unsuited);
}

#[test]
fn fingerprints_separate_multisets() {
    // The same ranks in any order share a fingerprint.
    let a = hash_ranks(&vec![Rank::Ace, Rank::King, Rank::Queen]).unwrap();
    let b = hash_ranks(&vec![Rank::Queen, Rank::Ace, Rank::King]).unwrap();
    assert_eq!(a, b);
    // Different multisets get different fingerprints.
    let c = hash_ranks(&vec![Rank::Ace, Rank::Ace, Rank::King]).unwrap();
    let d = hash_ranks(&vec![Rank::Ace, Rank::King, Rank::King]).unwrap();
    assert_ne!(c, d);
    assert_ne!(a, c);
    // The fingerprint is the product of the rank primes.
    assert_eq!(hash_ranks(&vec![Rank::Ace, Rank::Deuce]).unwrap(), 6);
}
