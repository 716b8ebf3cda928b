//! Monte Carlo estimate of the lowest spade that wins across four hands of a
//! shuffled 52-card deck.

pub mod card;
pub mod deck;
pub mod simulation;
