use pokerbot::cards::{CardHand, CardRank, CardSuit, NormalCard, PokerCard, full_deck, template_hand};
use pokerbot::hand::PokerHand;
use std::cmp::Ordering;

fn c(rank: CardRank, suit: CardSuit) -> NormalCard {
    NormalCard { rank, suit }
}

use CardRank::{Ace, Two, Three, Four, Five, Six, Seven, Eight, Nine, Ten, Jack, Queen, King};
use CardSuit::{Clubs, Diamonds, Hearts, Spades};

fn hand(cards: [NormalCard; 5]) -> CardHand {
    CardHand(cards)
}

#[test]
fn straight_flush_is_named_by_its_top() {
    let h = hand([c(Nine, Hearts), c(Five, Hearts), c(Seven, Hearts), c(Six, Hearts), c(Eight, Hearts)]);
    assert_eq!(PokerHand::from(h), PokerHand::StraightFlush(Nine));
}

#[test]
fn four_of_a_kind_with_single() {
    let h = hand([c(Queen, Hearts), c(Queen, Spades), c(Two, Clubs), c(Queen, Clubs), c(Queen, Diamonds)]);
    assert_eq!(PokerHand::from(h), PokerHand::FourOfAKind { quad: Queen, single: Two });
}

#[test]
fn full_house() {
    let h = hand([c(Three, Hearts), c(King, Spades), c(Three, Clubs), c(King, Clubs), c(Three, Diamonds)]);
    assert_eq!(PokerHand::from(h), PokerHand::FullHouse { triad: Three, pair: King });
}

#[test]
fn flush_lists_ranks_highest_first() {
    let h = hand([c(Two, Clubs), c(Jack, Clubs), c(Ace, Clubs), c(Nine, Clubs), c(Five, Clubs)]);
    assert_eq!(PokerHand::from(h), PokerHand::Flush([Jack, Nine, Five, Two, Ace]));
}

#[test]
fn straight_with_aces_low() {
    let h = hand([c(Two, Clubs), c(Ace, Hearts), c(Four, Clubs), c(Three, Spades), c(Five, Diamonds)]);
    assert_eq!(PokerHand::from(h), PokerHand::Straight(Five));
}

#[test]
fn ten_to_ace_is_no_straight() {
    let h = hand([c(Ten, Clubs), c(Jack, Hearts), c(Queen, Clubs), c(King, Spades), c(Ace, Diamonds)]);
    assert_eq!(PokerHand::from(h), PokerHand::HighCard([King, Queen, Jack, Ten, Ace]));
}

#[test]
fn three_of_a_kind_with_singles() {
    let h = hand([c(Seven, Clubs), c(Seven, Hearts), c(Two, Clubs), c(Seven, Spades), c(Jack, Diamonds)]);
    assert_eq!(PokerHand::from(h), PokerHand::ThreeOfAKind { triad: Seven, singles: [Jack, Two] });
}

#[test]
fn two_pair() {
    let h = hand([c(Four, Clubs), c(Nine, Hearts), c(Four, Hearts), c(Nine, Spades), c(King, Diamonds)]);
    assert_eq!(PokerHand::from(h), PokerHand::TwoPair { pair1: Nine, pair2: Four, single: King });
}

#[test]
fn one_pair() {
    let h = hand([c(Four, Clubs), c(Nine, Hearts), c(Four, Hearts), c(Ten, Spades), c(King, Diamonds)]);
    assert_eq!(PokerHand::from(h), PokerHand::OnePair { pair: Four, singles: [King, Ten, Nine] });
}

#[test]
fn five_of_one_rank_is_high_card() {
    // possible with two decks on the table
    let h = hand([c(Six, Clubs), c(Six, Hearts), c(Six, Hearts), c(Six, Spades), c(Six, Diamonds)]);
    assert_eq!(PokerHand::from(h), PokerHand::HighCard([Six, Six, Six, Six, Six]));
}

#[test]
fn flush_beats_a_pair_in_the_same_cards() {
    // two copies of one card make a pair, but a flush is checked first
    let h = hand([c(Six, Clubs), c(Six, Clubs), c(Two, Clubs), c(Nine, Clubs), c(King, Clubs)]);
    assert_eq!(PokerHand::from(h), PokerHand::Flush([King, Nine, Six, Six, Two]));
}

#[test]
fn stronger_kind_wins() {
    let flush = PokerHand::Flush([Jack, Nine, Five, Two, Ace]);
    let straight = PokerHand::Straight(King);
    assert_eq!(flush.cmp(&straight), Ordering::Greater);
    assert_eq!(straight.cmp(&flush), Ordering::Less);
    assert_eq!(straight.partial_cmp(&flush), Some(Ordering::Less));
}

#[test]
fn same_kind_compares_ranks_in_order() {
    let a = PokerHand::TwoPair { pair1: Nine, pair2: Four, single: King };
    let b = PokerHand::TwoPair { pair1: Nine, pair2: Five, single: Two };
    assert_eq!(a.cmp(&b), Ordering::Less);
    let x = PokerHand::HighCard([King, Queen, Jack, Ten, Ace]);
    let y = PokerHand::HighCard([King, Queen, Jack, Ten, Two]);
    assert_eq!(x.cmp(&y), Ordering::Less);
    assert_eq!(x.cmp(&x), Ordering::Equal);
    assert!(x == x);
    assert!(x != y);
}

#[test]
fn ranks_compare_by_value() {
    assert_eq!(Ace.cmp(&Two), Ordering::Less);
    assert_eq!(King.cmp(&Queen), Ordering::Greater);
    assert_eq!(Ten.partial_cmp(&Ten), Some(Ordering::Equal));
    assert_eq!(Ace.value(), 1);
    assert_eq!(King.value(), 13);
    assert_eq!(CardRank::from_value(10), Ten);
}

#[test]
fn card_texts() {
    assert_eq!(Ten.text(), "10");
    assert_eq!(c(Ten, Hearts).text(), "10\u{2665}");
    assert_eq!(PokerCard::Normal(c(Ace, Spades)).text(), "A\u{2660}");
    let h = hand([c(Ace, Diamonds), c(Ten, Hearts), c(King, Spades), c(Two, Clubs), c(Two, Diamonds)]);
    assert_eq!(h.print_hand(), "A\u{2666} 10\u{2665} K\u{2660} 2\u{2663} 2\u{2666}");
    assert_eq!(PokerHand::from(h).print_variant(), "");
}

#[test]
fn template_hand_is_five_aces_of_diamonds() {
    let h = template_hand();
    for card in h.0.iter() {
        assert_eq!(*card, c(Ace, Diamonds));
    }
}

#[test]
fn deck_has_two_copies_of_each_card() {
    let d = full_deck();
    assert_eq!(d.len(), 104);
    assert_eq!(d[0], c(Ace, Diamonds));
    assert_eq!(d[12], c(King, Diamonds));
    assert_eq!(d[13], c(Ace, Clubs));
    assert_eq!(d[51], c(King, Spades));
    assert_eq!(d[52], c(Ace, Diamonds));
    for card in d.iter() {
        assert_eq!(d.iter().filter(|x| *x == card).count(), 2);
    }
}
