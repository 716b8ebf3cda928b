use vstd::prelude::*;

verus! {

/// The four suits of a deck, and `Dummy`, which no deck holds.
#[derive(Debug, Clone, Copy, PartialEq, Eq, Structural)]
pub enum CardSuit {
    Spades,
    Hearts,
    Diamonds,
    Clubs,
    Dummy,
}

/// A playing card: a suit and a rank, 1 for the ace up to 13 for the king.
#[derive(Debug, Clone, Copy, PartialEq, Eq, Structural)]
pub struct Card {
    pub suit: CardSuit,
    pub value: u32,
}

impl Card {
    pub fn new(suit: CardSuit, value: u32) -> (r: Card)
        ensures
            r.suit == suit,
            r.value == value,
    {
        Card { suit: suit, value: value }
    }
}

} // verus!
