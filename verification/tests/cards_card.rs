use rummy::cards::card::Card;
use rummy::cards::deck::DeckConfig;
use rummy::cards::suit_rank::{Rank, Suit};

/// Cards have the expected ordering.
#[test]
fn normal_ordering_card() {
    let cfg = DeckConfig::new();

    // cards are ordered by rank, then suit
    let card1 = Card::new(Rank::Ace, Suit::Clubs, &cfg);
    let card2 = Card::new(Rank::Ace, Suit::Diamonds, &cfg);
    let card3 = Card::new(Rank::Two, Suit::Clubs, &cfg);

    assert!(card2 > card1);
    assert!(card3 > card2);
}

/// If the deck config specifies a custom high rank, ordering will decrease
/// from that rank onwards. For eg, `high_rank = 3` means `3 > 2 > Ace > King > ...`
#[test]
fn custom_ordering_card() {
    let cfg = DeckConfig {
        shuffle_seed: None,
        pack_count: 1,
        high_rank: Some(Rank::Three),
        wildcard_rank: None,
    };

    // Rank::Three should be the highest now
    let card1 = Card::new(Rank::King, Suit::Spades, &cfg);
    let card2 = Card::new(Rank::Two, Suit::Spades, &cfg);
    let card3 = Card::new(Rank::Three, Suit::Clubs, &cfg);

    assert!(card2 > card1);
    assert!(card3 > card2);

    // Suit ordering should remain the same
    let card4 = Card::new(Rank::Three, Suit::Spades, &cfg);
    assert!(card4 > card1);
}
