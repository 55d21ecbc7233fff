//! German-style playing cards: the 32-card pack, a shuffled deck to deal
//! from, and hands to play out of.
//!
//! Every operation carries a contract over the sequence of cards that a
//! [`Deck`] or a [`Hand`] holds, so that a caller can follow each card from
//! the pack into exactly one hand and out of it again.

pub mod card;
pub mod dealing;
pub mod deck;
pub mod hand;
pub mod playing;

pub use card::{Card, Face, Suit};
pub use deck::Deck;
pub use hand::Hand;
