//! The poker suits and ranks that every card is made of.

use vstd::prelude::*;

verus! {

/// Poker suits.
///
/// `Joker` is the suit carried only by Joker cards; the four ordinary suits
/// follow in their conventional order.
#[derive(Debug, Clone, Copy, PartialEq, Eq, Structural, Hash)]
pub enum Suit {
    Joker,
    Clubs,
    Diamonds,
    Hearts,
    Spades,
}

/// Poker ranks.
///
/// `Joker` is the rank carried only by Joker cards; `Ace` through `King`
/// follow in their conventional order.
#[derive(Debug, Clone, Copy, PartialEq, Eq, Structural, Hash)]
pub enum Rank {
    Joker,
    Ace,
    Two,
    Three,
    Four,
    Five,
    Six,
    Seven,
    Eight,
    Nine,
    Ten,
    Jack,
    Queen,
    King,
}

/// The position of a suit in the `Suit` enumeration, used by the card value
/// function to break ties between cards of equal rank.
pub open spec fn suit_number(s: Suit) -> int {
    match s {
        Suit::Joker => 0,
        Suit::Clubs => 1,
        Suit::Diamonds => 2,
        Suit::Hearts => 3,
        Suit::Spades => 4,
    }
}

/// The position of a rank in the `Rank` enumeration: 0 for `Joker`, 1 for
/// `Ace`, up to 13 for `King`.
pub open spec fn rank_number(r: Rank) -> int {
    match r {
        Rank::Joker => 0,
        Rank::Ace => 1,
        Rank::Two => 2,
        Rank::Three => 3,
        Rank::Four => 4,
        Rank::Five => 5,
        Rank::Six => 6,
        Rank::Seven => 7,
        Rank::Eight => 8,
        Rank::Nine => 9,
        Rank::Ten => 10,
        Rank::Jack => 11,
        Rank::Queen => 12,
        Rank::King => 13,
    }
}

/// The rank at a given position of the `Rank` enumeration; the inverse of
/// [`rank_number`].
pub open spec fn rank_at(n: int) -> Rank {
    if n == 1 {
        Rank::Ace
    } else if n == 2 {
        Rank::Two
    } else if n == 3 {
        Rank::Three
    } else if n == 4 {
        Rank::Four
    } else if n == 5 {
        Rank::Five
    } else if n == 6 {
        Rank::Six
    } else if n == 7 {
        Rank::Seven
    } else if n == 8 {
        Rank::Eight
    } else if n == 9 {
        Rank::Nine
    } else if n == 10 {
        Rank::Ten
    } else if n == 11 {
        Rank::Jack
    } else if n == 12 {
        Rank::Queen
    } else if n == 13 {
        Rank::King
    } else {
        Rank::Joker
    }
}

/// The suit at a given position of the `Suit` enumeration; the inverse of
/// [`suit_number`].
pub open spec fn suit_at(n: int) -> Suit {
    if n == 1 {
        Suit::Clubs
    } else if n == 2 {
        Suit::Diamonds
    } else if n == 3 {
        Suit::Hearts
    } else if n == 4 {
        Suit::Spades
    } else {
        Suit::Joker
    }
}

impl Suit {
    /// The suit at the given enumeration position.
    pub fn from_number(n: u8) -> (s: Suit)
        ensures
            s == suit_at(n as int),
    {
        if n == 1 {
            Suit::Clubs
        } else if n == 2 {
            Suit::Diamonds
        } else if n == 3 {
            Suit::Hearts
        } else if n == 4 {
            Suit::Spades
        } else {
            Suit::Joker
        }
    }

    /// The position of this suit in the enumeration.
    pub fn number(self) -> (n: u8)
        ensures
            n == suit_number(self),
    {
        match self {
            Suit::Joker => 0,
            Suit::Clubs => 1,
            Suit::Diamonds => 2,
            Suit::Hearts => 3,
            Suit::Spades => 4,
        }
    }

    /// Returns the Unicode character symbol for the suit.
    pub fn as_str(&self) -> &'static str {
        match self {
            Suit::Joker => "\u{1F0CF}",
            Suit::Clubs => "\u{2663}",
            Suit::Diamonds => "\u{2666}",
            Suit::Hearts => "\u{2665}",
            Suit::Spades => "\u{2660}",
        }
    }
}

impl Rank {
    /// The rank at the given enumeration position.
    pub fn from_number(n: u8) -> (r: Rank)
        ensures
            r == rank_at(n as int),
    {
        if n == 1 {
            Rank::Ace
        } else if n == 2 {
            Rank::Two
        } else if n == 3 {
            Rank::Three
        } else if n == 4 {
            Rank::Four
        } else if n == 5 {
            Rank::Five
        } else if n == 6 {
            Rank::Six
        } else if n == 7 {
            Rank::Seven
        } else if n == 8 {
            Rank::Eight
        } else if n == 9 {
            Rank::Nine
        } else if n == 10 {
            Rank::Ten
        } else if n == 11 {
            Rank::Jack
        } else if n == 12 {
            Rank::Queen
        } else if n == 13 {
            Rank::King
        } else {
            Rank::Joker
        }
    }

    /// The position of this rank in the enumeration.
    pub fn number(self) -> (n: u8)
        ensures
            n == rank_number(self),
    {
        match self {
            Rank::Joker => 0,
            Rank::Ace => 1,
            Rank::Two => 2,
            Rank::Three => 3,
            Rank::Four => 4,
            Rank::Five => 5,
            Rank::Six => 6,
            Rank::Seven => 7,
            Rank::Eight => 8,
            Rank::Nine => 9,
            Rank::Ten => 10,
            Rank::Jack => 11,
            Rank::Queen => 12,
            Rank::King => 13,
        }
    }

    /// Returns the short form string representation of the rank.
    pub fn as_str(&self) -> &'static str {
        match self {
            Rank::Joker => "\u{1F0CF}",
            Rank::Ace => "A",
            Rank::Two => "2",
            Rank::Three => "3",
            Rank::Four => "4",
            Rank::Five => "5",
            Rank::Six => "6",
            Rank::Seven => "7",
            Rank::Eight => "8",
            Rank::Nine => "9",
            Rank::Ten => "10",
            Rank::Jack => "J",
            Rank::Queen => "Q",
            Rank::King => "K",
        }
    }
}

/// The thirteen playing ranks in ascending enumeration order, `Ace` first;
/// the `Joker` rank is not among them.
pub fn playing_ranks() -> (v: Vec<Rank>)
    ensures
        v@.len() == 13,
        forall|i: int| 0 <= i < 13 ==> rank_number(v@[i]) == i + 1,
{
    let mut v: Vec<Rank> = Vec::new();
    v.push(Rank::Ace);
    v.push(Rank::Two);
    v.push(Rank::Three);
    v.push(Rank::Four);
    v.push(Rank::Five);
    v.push(Rank::Six);
    v.push(Rank::Seven);
    v.push(Rank::Eight);
    v.push(Rank::Nine);
    v.push(Rank::Ten);
    v.push(Rank::Jack);
    v.push(Rank::Queen);
    v.push(Rank::King);
    v
}

/// The four playing suits in ascending enumeration order, `Clubs` first; the
/// `Joker` suit is not among them.
pub fn playing_suits() -> (v: Vec<Suit>)
    ensures
        v@.len() == 4,
        forall|i: int| 0 <= i < 4 ==> suit_number(v@[i]) == i + 1,
{
    let mut v: Vec<Suit> = Vec::new();
    v.push(Suit::Clubs);
    v.push(Suit::Diamonds);
    v.push(Suit::Hearts);
    v.push(Suit::Spades);
    v
}

} // verus!
