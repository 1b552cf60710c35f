use rummy::cards::card::Card;
use rummy::cards::deck::DeckConfig;
use rummy::cards::meld::{Meld, Meldable, SetMeld};
use rummy::cards::suit_rank::{Rank, Suit};

fn card(rank: Rank, suit: Suit, cfg: &DeckConfig) -> Card {
    Card::new(rank, suit, cfg)
}

#[test]
fn invalid_meld_set() {
    let cfg = DeckConfig::new();
    let mut cards = vec![
        card(Rank::Ace, Suit::Clubs, &cfg),
        card(Rank::Ace, Suit::Spades, &cfg),
        card(Rank::Two, Suit::Clubs, &cfg),
    ];
    let indices = vec![0, 1, 2];
    assert!(Meld::new(&mut cards, &indices).is_err());
}

#[test]
fn valid_meld_set() {
    let cfg = DeckConfig::new();
    let cards = vec![
        card(Rank::Ace, Suit::Clubs, &cfg),
        card(Rank::Ace, Suit::Diamonds, &cfg),
        card(Rank::Ace, Suit::Hearts, &cfg),
    ];
    let indices = vec![0, 1, 2];
    let meld = Meld::new(&mut cards.clone(), &indices);
    assert!(meld.is_ok());
    assert!(meld.unwrap().is_set());
}

#[test]
fn invalid_layoff_meld_set() {
    let cfg = DeckConfig::new();
    let cards = vec![
        card(Rank::Ace, Suit::Clubs, &cfg),
        card(Rank::Ace, Suit::Diamonds, &cfg),
        card(Rank::Ace, Suit::Hearts, &cfg),
    ];
    let indices = vec![0, 1, 2];
    let mut meld = Meld::new(&mut cards.clone(), &indices).unwrap();
    let mut layoff_card = vec![card(Rank::Two, Suit::Clubs, &cfg)];

    assert!(meld.layoff_card(&mut layoff_card, 0).is_err());
}

#[test]
fn valid_layoff_meld_set() {
    let cfg = DeckConfig::new();
    let cards = vec![
        card(Rank::Ace, Suit::Clubs, &cfg),
        card(Rank::Ace, Suit::Diamonds, &cfg),
        card(Rank::Ace, Suit::Hearts, &cfg),
    ];
    let indices = vec![0, 1, 2];
    let mut meld = SetMeld::new(&mut cards.clone(), &indices).unwrap();
    let mut layoff_card = vec![card(Rank::Ace, Suit::Spades, &cfg)];
    assert!(meld.layoff_card(&mut layoff_card, 0).is_ok());
}

#[test]
fn invalid_meld_run() {
    let cfg = DeckConfig::new();
    let mut cards = vec![
        card(Rank::Ace, Suit::Clubs, &cfg),
        card(Rank::Two, Suit::Clubs, &cfg),
        card(Rank::Three, Suit::Spades, &cfg),
    ];
    let indices = vec![0, 1, 2];
    assert!(Meld::new(&mut cards, &indices).is_err());
}

#[test]
fn valid_meld_run() {
    let cfg = DeckConfig::new();
    let cards = vec![
        card(Rank::Ace, Suit::Clubs, &cfg),
        card(Rank::Two, Suit::Clubs, &cfg),
        card(Rank::Three, Suit::Clubs, &cfg),
    ];
    let indices = vec![0, 1, 2];
    let meld = Meld::new(&mut cards.clone(), &indices);
    assert!(meld.is_ok());
    assert!(meld.unwrap().is_run());
}

#[test]
fn invalid_layoff_meld_run() {
    let cfg = DeckConfig::new();
    let cards = vec![
        card(Rank::Ace, Suit::Clubs, &cfg),
        card(Rank::Two, Suit::Clubs, &cfg),
        card(Rank::Three, Suit::Clubs, &cfg),
    ];
    let indices = vec![0, 1, 2];
    let mut meld = Meld::new(&mut cards.clone(), &indices).unwrap();
    let mut layoff_cards = vec![
        card(Rank::Five, Suit::Clubs, &cfg),  // not consecutive rank
        card(Rank::Four, Suit::Spades, &cfg), // wrong suit
    ];

    assert!(meld.layoff_card(&mut layoff_cards, 0).is_err());
    assert!(meld.layoff_card(&mut layoff_cards, 1).is_err());
}

#[test]
fn valid_layoff_meld_run() {
    let cfg = DeckConfig::new();
    let cards = vec![
        card(Rank::Two, Suit::Clubs, &cfg),
        card(Rank::Three, Suit::Clubs, &cfg),
        card(Rank::Four, Suit::Clubs, &cfg),
        card(Rank::Five, Suit::Clubs, &cfg),
    ];
    let indices = vec![0, 1, 2, 3];
    let mut meld = Meld::new(&mut cards.clone(), &indices).unwrap();

    let mut layoff_cards = vec![
        card(Rank::Ace, Suit::Clubs, &cfg), // at bottom of meld,
        card(Rank::Six, Suit::Clubs, &cfg), // and top of meld
    ];
    assert!(meld.layoff_card(&mut layoff_cards, 0).is_ok());
    assert!(meld.layoff_card(&mut layoff_cards, 0).is_ok());
}
