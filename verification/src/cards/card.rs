//! The `Card` type and its configuration-aware value function.

use vstd::prelude::*;

use crate::cards::deck::DeckConfig;
use crate::cards::suit_rank::{rank_number, suit_number, Rank, Suit};

verus! {

/// The data of a card: its rank and suit, without the deck configuration.
#[derive(Debug, Clone, Copy, PartialEq, Eq, Structural, Hash)]
pub struct CardData {
    pub rank: Rank,
    pub suit: Suit,
}

/// A card.
///
/// Besides its rank and suit, every card carries a copy of its deck's
/// immutable configuration, which fixes the high rank and the wildcard rank
/// that the value function and the meld engine consult.
#[derive(Debug, Clone, Copy, Hash)]
pub struct Card {
    pub rank: Rank,
    pub suit: Suit,
    pub deck_config: DeckConfig,
}

/// The value of a card of the given rank and suit under the given high-rank
/// override: `4 * relative_rank + suit_number`, where the rank circle is
/// rotated so that the high rank (King when unset) comes out on top.
/// Jokers always have value 0.
pub open spec fn card_value(rank: Rank, suit: Suit, high_rank: Option<Rank>) -> int {
    if rank == Rank::Joker || suit == Suit::Joker {
        0
    } else {
        let h = match high_rank {
            Option::None => 13,
            Option::Some(hr) => rank_number(hr),
        };
        let rel = (rank_number(rank) + 13 - h) % 14;
        // With an explicit high rank the wraparound passes through the Joker
        // slot, so ranks from Ace up to the high rank sit one step lower.
        let rel_adjusted = if high_rank is Some && rank_number(rank) <= h {
            rel - 1
        } else {
            rel
        };
        4 * rel_adjusted + suit_number(suit)
    }
}

/// The scoring value of a rank: Ace counts 1, number cards their face value,
/// face cards 10, Jokers 0.
pub open spec fn rank_score(rank: Rank) -> int {
    match rank {
        Rank::Jack | Rank::Queen | Rank::King => 10,
        other => rank_number(other),
    }
}

impl Card {
    /// The value of this card; see [`card_value`].
    pub open spec fn spec_value(self) -> int {
        card_value(self.rank, self.suit, self.deck_config.high_rank)
    }

    /// Whether this card's rank is the configured wildcard rank.
    pub open spec fn spec_is_wildcard(self) -> bool {
        self.deck_config.wildcard_rank == Option::Some(self.rank)
    }

    /// Creates a card of the given rank and suit, carrying the given deck
    /// configuration.
    pub fn new(rank: Rank, suit: Suit, deck_config: &DeckConfig) -> (c: Card)
        ensures
            c == (Card { rank, suit, deck_config: *deck_config }),
    {
        Card { rank, suit, deck_config: *deck_config }
    }

    /// Get the card's rank and suit.
    pub fn data(&self) -> (d: CardData)
        ensures
            d == (CardData { rank: self.rank, suit: self.suit }),
    {
        CardData { rank: self.rank, suit: self.suit }
    }

    /// Get the configuration of the deck this card belongs to.
    pub fn deck_config(&self) -> (c: &DeckConfig)
        ensures
            c == self.deck_config,
    {
        &self.deck_config
    }

    /// Obtain the "value" of a `Card`.
    ///
    /// If the deck config has a custom `high_rank`, this function computes
    /// the correct value taking that into account.
    ///
    /// The value is `4 * (relative rank value) + (suit value)`.
    pub fn value(&self) -> (v: u8)
        ensures
            v == self.spec_value(),
            v <= 56,
    {
        if self.suit == Suit::Joker || self.rank == Rank::Joker {
            return 0;
        }

        let max_rank: u8 = 13;
        let highest_rank = match self.deck_config.high_rank {
            Option::None => max_rank,
            Option::Some(high_rank) => high_rank.number(),
        };

        let rank_offset = max_rank - highest_rank;
        let mut relative_rank = (self.rank.number() + rank_offset) % (max_rank + 1);

        // With a custom high rank, the rotation passes through the Joker
        // slot, so King -> Ace counts as 2 jumps; compensate for the ranks
        // from Ace up to the custom highest rank.
        if let Option::Some(highest_rank) = self.deck_config.high_rank {
            if self.rank.number() >= 1 && self.rank.number() <= highest_rank.number() {
                assert(relative_rank >= 1) by {
                    let r = rank_number(self.rank);
                    let h = rank_number(highest_rank);
                    assert((r + 13 - h) % 14 == 0 ==> r == h + 1);
                }
                relative_rank = relative_rank - 1;
            }
        }

        4 * relative_rank + self.suit.number()
    }

    /// Returns the card's value in context of scoring, that is:
    /// - Ace: 1
    /// - 2 - 10: face value
    /// - Jack/Queen/King: 10
    pub fn score_value(&self) -> (v: u8)
        ensures
            v == rank_score(self.rank),
            v <= 10,
    {
        match self.rank {
            Rank::Jack | Rank::Queen | Rank::King => 10,
            other => other.number(),
        }
    }

    /// Whether or not `other` has the same suit and the consecutive
    /// (relative) rank, that is, a value exactly 4 above this card's.
    ///
    /// This is the sole primitive used by run validation.
    pub fn same_suit_consecutive_rank(&self, other: &Card) -> (b: bool)
        ensures
            b == (self.spec_value() + 4 == other.spec_value()),
    {
        self.value() + 4 == other.value()
    }

    /// Returns whether the card is a wildcard, as determined by its deck
    /// configuration.
    pub fn is_wildcard(&self) -> (b: bool)
        ensures
            b == self.spec_is_wildcard(),
    {
        match self.deck_config.wildcard_rank {
            Option::Some(r) => r == self.rank,
            Option::None => false,
        }
    }
}

/// Cards are equal when rank and suit agree; the deck configuration is
/// deliberately ignored.
impl PartialEq for Card {
    fn eq(&self, other: &Self) -> (r: bool) {
        self.rank == other.rank && self.suit == other.suit
    }
}

impl vstd::std_specs::cmp::PartialEqSpecImpl for Card {
    open spec fn obeys_eq_spec() -> bool {
        true
    }

    open spec fn eq_spec(&self, other: &Card) -> bool {
        self.rank == other.rank && self.suit == other.suit
    }
}

impl Eq for Card {}

/// Cards are ordered by their value, so a custom high rank reorders them.
impl PartialOrd for Card {
    fn partial_cmp(&self, other: &Self) -> (r: Option<core::cmp::Ordering>) {
        let a = self.value();
        let b = other.value();
        if a < b {
            Option::Some(core::cmp::Ordering::Less)
        } else if a == b {
            Option::Some(core::cmp::Ordering::Equal)
        } else {
            Option::Some(core::cmp::Ordering::Greater)
        }
    }
}

impl vstd::std_specs::cmp::PartialOrdSpecImpl for Card {
    open spec fn obeys_partial_cmp_spec() -> bool {
        true
    }

    open spec fn partial_cmp_spec(&self, other: &Card) -> Option<core::cmp::Ordering> {
        if self.spec_value() < other.spec_value() {
            Option::Some(core::cmp::Ordering::Less)
        } else if self.spec_value() == other.spec_value() {
            Option::Some(core::cmp::Ordering::Equal)
        } else {
            Option::Some(core::cmp::Ordering::Greater)
        }
    }
}


/// A card's value always lies between 0 and 56: at most 13 relative rank
/// steps of 4, plus a suit number of at most 4.
pub proof fn lemma_card_value_bounds(c: Card)
    ensures
        0 <= c.spec_value() <= 56,
{
    if !(c.rank == Rank::Joker || c.suit == Suit::Joker) {
        let r = rank_number(c.rank);
        let h = match c.deck_config.high_rank {
            Option::None => 13int,
            Option::Some(hr) => rank_number(hr),
        };
        let rel = (r + 13 - h) % 14;
        assert(0 <= rel < 14);
        if c.deck_config.high_rank is Some && r <= h {
            assert(rel >= 1) by {
                assert((r + 13 - h) % 14 == 0 ==> r == h + 1);
            }
        }
        assert(1 <= suit_number(c.suit) <= 4);
    }
}

/// Whether a sequence of cards is sorted by ascending value.
pub open spec fn sorted_by_value(s: Seq<Card>) -> bool {
    forall|i: int, j: int| 0 <= i < j < s.len() ==> s[i].spec_value() <= s[j].spec_value()
}

/// Sorts cards in place by ascending value (insertion sort).
///
/// The result holds exactly the cards that were given, reordered.
pub fn sort_cards_by_value(cards: &mut Vec<Card>)
    ensures
        final(cards)@.to_multiset() == old(cards)@.to_multiset(),
        final(cards)@.len() == old(cards)@.len(),
        sorted_by_value(final(cards)@),
{
    if cards.len() <= 1 {
        return;
    }
    let mut i: usize = 1;
    while i < cards.len()
        invariant
            1 <= i <= cards@.len(),
            cards@.to_multiset() == old(cards)@.to_multiset(),
            cards@.len() == old(cards)@.len(),
            sorted_by_value(cards@.take(i as int)),
        decreases cards@.len() - i,
    {
        let mut j: usize = i;
        proof {
            assert forall|a: int, b: int|
                0 <= a < b <= i && b != j implies cards@[a].spec_value()
                <= cards@[b].spec_value() by {
                assert(cards@.take(i as int)[a] == cards@[a]);
                assert(cards@.take(i as int)[b] == cards@[b]);
            }
        }
        while j > 0 && cards[j - 1].value() > cards[j].value()
            invariant
                0 <= j <= i < cards@.len(),
                cards@.to_multiset() == old(cards)@.to_multiset(),
                cards@.len() == old(cards)@.len(),
                forall|a: int, b: int|
                    0 <= a < b <= i && b != j ==> cards@[a].spec_value() <= cards@[b].spec_value(),
            decreases j,
        {
            let ghost prev = cards@;
            let ghost ms = prev.to_multiset();
            let c = cards[j];
            let d = cards[j - 1];
            cards.set(j, d);
            cards.set(j - 1, c);
            proof {
                broadcast use vstd::seq_lib::group_to_multiset_ensures;
                broadcast use vstd::seq_lib::to_multiset_update;
                broadcast use vstd::multiset::group_multiset_axioms;

                let s1 = prev.update(j as int, d);
                assert(s1.to_multiset() == ms.insert(d).remove(c));
                assert(cards@ == s1.update(j as int - 1, c));
                assert(s1[j as int - 1] == d);
                assert(cards@.to_multiset() == s1.to_multiset().insert(c).remove(d));
                assert(prev.contains(c)) by {
                    assert(prev[j as int] == c);
                }
                assert(ms.count(c) >= 1);
                assert(cards@.to_multiset() =~= ms);
            }
            j = j - 1;
        }
        i = i + 1;
        proof {
            assert forall|a: int, b: int| 0 <= a < b < i implies cards@.take(i as int)[
                a
            ].spec_value() <= cards@.take(i as int)[b].spec_value() by {
                assert(cards@.take(i as int)[a] == cards@[a]);
                assert(cards@.take(i as int)[b] == cards@[b]);
                if b != j {
                } else {
                    if a < j - 1 {
                        assert(cards@[a].spec_value() <= cards@[j - 1].spec_value());
                    }
                    assert(cards@[j - 1].spec_value() <= cards@[j as int].spec_value());
                }
            }
        }
    }
    proof {
        assert(cards@.take(cards@.len() as int) =~= cards@);
    }
}

} // verus!
