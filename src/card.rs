//! Cards, their ranks and suits, and the penalty class of a rank.
use vstd::prelude::*;

verus! {

/// The thirteen ranks, from lowest to highest.
#[derive(Clone, Copy, Debug, PartialEq, Eq, Structural, Hash)]
pub enum Rank {
    Two,
    Three,
    Four,
    Five,
    Six,
    Seven,
    Eight,
    Nine,
    Ten,
    Jack,
    Queen,
    King,
    Ace,
}

/// The four suits. They play no part in the rules, but they are part of a card's identity.
#[derive(Clone, Copy, Debug, PartialEq, Eq, Structural, Hash)]
pub enum Suit {
    Clubs,
    Diamonds,
    Hearts,
    Spades,
}

/// A playing card: a rank and a suit.
#[derive(Clone, Copy, Debug, PartialEq, Eq, Structural, Hash)]
pub struct Card {
    pub rank: Rank,
    pub suit: Suit,
}

/// How many cards the opponent must pay when a card of this rank is played.
pub open spec fn penalty_class(rank: Rank) -> nat {
    match rank {
        Rank::Jack => 1,
        Rank::Queen => 2,
        Rank::King => 3,
        Rank::Ace => 4,
        _ => 0,
    }
}

/// The penalty class of a card.
pub open spec fn penalty_of(c: Card) -> nat {
    penalty_class(c.rank)
}

impl Card {
    pub fn new(rank: Rank, suit: Suit) -> (c: Card)
        ensures
            c.rank == rank,
            c.suit == suit,
    {
        Card { rank, suit }
    }

    /// The number of cards this card demands from the opponent (0 for number cards).
    pub fn penalty(&self) -> (r: u8)
        ensures
            r as nat == penalty_of(*self),
    {
        match self.rank {
            Rank::Jack => 1,
            Rank::Queen => 2,
            Rank::King => 3,
            Rank::Ace => 4,
            _ => 0,
        }
    }
}

} // verus!
