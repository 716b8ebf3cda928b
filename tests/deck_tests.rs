use rand::rngs::StdRng;
use rand::SeedableRng;
use spades::card::{Card, CardSuit};
use spades::deck::Deck;

const SUITS: [CardSuit; 4] = [
    CardSuit::Spades,
    CardSuit::Hearts,
    CardSuit::Diamonds,
    CardSuit::Clubs,
];

fn count_of(cards: &[Card], suit: CardSuit, value: u32) -> usize {
    cards
        .iter()
        .filter(|c| c.suit == suit && c.value == value)
        .count()
}

fn holds_each_card_once(cards: &[Card]) -> bool {
    cards.len() == 52
        && SUITS
            .iter()
            .all(|&s| (1..=13).all(|v| count_of(cards, s, v) == 1))
}

fn same_order(a: &[Card], b: &[Card]) -> bool {
    a.len() == b.len() && a.iter().zip(b.iter()).all(|(x, y)| x == y)
}

#[test]
fn fresh_deck_holds_every_card_once() {
    let deck = Deck::new();
    let cards = deck.cards();
    assert_eq!(deck.len(), 52);
    assert!(holds_each_card_once(cards));
    assert!(cards.iter().all(|c| c.suit != CardSuit::Dummy));
    for s in SUITS.iter() {
        assert_eq!(cards.iter().filter(|c| c.suit == *s).count(), 13);
    }
}

#[test]
fn fresh_deck_is_in_suit_then_rank_order() {
    let deck = Deck::new();
    let cards = deck.cards();
    assert_eq!(cards[0], Card::new(CardSuit::Spades, 1));
    assert_eq!(cards[12], Card::new(CardSuit::Spades, 13));
    assert_eq!(cards[13], Card::new(CardSuit::Hearts, 1));
    assert_eq!(cards[27], Card::new(CardSuit::Diamonds, 2));
    assert_eq!(cards[51], Card::new(CardSuit::Clubs, 13));
}

#[test]
fn card_new_keeps_suit_and_rank() {
    let c = Card::new(CardSuit::Diamonds, 7);
    assert_eq!(c.suit, CardSuit::Diamonds);
    assert_eq!(c.value, 7);
}

#[test]
fn shuffle_keeps_the_same_cards() {
    let mut rng = StdRng::seed_from_u64(11);
    let mut deck = Deck::new();
    deck.shuffle(&mut rng);
    assert!(holds_each_card_once(deck.cards()));
}

#[test]
fn shuffle_changes_the_order() {
    let fresh = Deck::new();
    let mut rng = StdRng::seed_from_u64(3);
    let mut moved = 0;
    for _ in 0..5 {
        let mut deck = Deck::new();
        deck.shuffle(&mut rng);
        if !same_order(deck.cards(), fresh.cards()) {
            moved += 1;
        }
    }
    assert!(moved >= 1);
}

#[test]
fn split_into_thirteen_gives_four_hands() {
    let mut rng = StdRng::seed_from_u64(5);
    let mut deck = Deck::new();
    deck.shuffle(&mut rng);
    let before: Vec<Card> = deck.cards().clone();
    let hands = deck.split_into(13);
    assert_eq!(hands.len(), 4);
    let mut joined: Vec<Card> = Vec::new();
    for h in hands.iter() {
        assert_eq!(h.len(), 13);
        joined.extend(h.cards().iter().copied());
    }
    assert!(same_order(&joined, &before));
    assert!(same_order(deck.cards(), &before));
}

#[test]
fn split_into_uneven_leaves_a_short_last_hand() {
    let mut deck = Deck::new();
    let hands = deck.split_into(5);
    assert_eq!(hands.len(), 11);
    for h in hands[..10].iter() {
        assert_eq!(h.len(), 5);
    }
    assert_eq!(hands[10].len(), 2);
    let total: usize = hands.iter().map(|h| h.len()).sum();
    assert_eq!(total, 52);
    assert_eq!(hands[10].cards()[1], Card::new(CardSuit::Clubs, 13));
}

#[test]
fn split_into_larger_than_deck_gives_one_hand() {
    let mut deck = Deck::new();
    let hands = deck.split_into(100);
    assert_eq!(hands.len(), 1);
    assert_eq!(hands[0].len(), 52);
}

#[test]
fn split_of_empty_deck_gives_no_hands() {
    let mut deck = Deck::from_cards(Vec::new());
    assert_eq!(deck.split_into(13).len(), 0);
}

#[test]
fn lowest_card_is_none_without_the_suit() {
    let hand = Deck::from_cards(vec![
        Card::new(CardSuit::Hearts, 3),
        Card::new(CardSuit::Clubs, 1),
    ]);
    assert_eq!(hand.lowest_card(CardSuit::Spades), None);
    assert_eq!(Deck::from_cards(Vec::new()).lowest_card(CardSuit::Hearts), None);
}

#[test]
fn lowest_card_picks_the_least_rank_of_the_suit() {
    let hand = Deck::from_cards(vec![
        Card::new(CardSuit::Spades, 9),
        Card::new(CardSuit::Hearts, 1),
        Card::new(CardSuit::Spades, 4),
        Card::new(CardSuit::Spades, 12),
    ]);
    let low = hand.lowest_card(CardSuit::Spades).unwrap();
    assert_eq!(low, Card::new(CardSuit::Spades, 4));
    assert!(low.value >= 1 && low.value <= 13);
    assert_eq!(
        hand.lowest_card(CardSuit::Hearts),
        Some(Card::new(CardSuit::Hearts, 1))
    );
}

#[test]
fn lowest_card_on_each_dealt_hand() {
    let mut deck = Deck::new();
    let hands = deck.split_into(13);
    assert_eq!(
        hands[0].lowest_card(CardSuit::Spades),
        Some(Card::new(CardSuit::Spades, 1))
    );
    assert_eq!(hands[1].lowest_card(CardSuit::Spades), None);
    assert_eq!(
        hands[3].lowest_card(CardSuit::Clubs),
        Some(Card::new(CardSuit::Clubs, 1))
    );
}
