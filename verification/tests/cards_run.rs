use rummy::cards::card::Card;
use rummy::cards::deck::DeckConfig;
use rummy::cards::meld::{Meldable, Run};
use rummy::cards::suit_rank::{Rank, Suit};

fn card(rank: Rank, suit: Suit, cfg: &DeckConfig) -> Card {
    Card::new(rank, suit, cfg)
}

#[test]
fn invalid_run_less_than_3_cards() {
    let cfg = DeckConfig::new();
    let mut cards = vec![
        card(Rank::Ace, Suit::Clubs, &cfg),
        card(Rank::Two, Suit::Clubs, &cfg),
    ];
    let indices = vec![0, 1];
    assert!(Run::new(&mut cards, &indices).is_err());
}

#[test]
fn invalid_run_different_suits() {
    let cfg = DeckConfig::new();
    let mut cards = vec![
        card(Rank::Ace, Suit::Clubs, &cfg),
        card(Rank::Two, Suit::Clubs, &cfg),
        card(Rank::Three, Suit::Spades, &cfg),
    ];
    let indices = vec![0, 1, 2];
    assert!(Run::new(&mut cards, &indices).is_err());
}

#[test]
fn invalid_run_invalid_indices() {
    let cfg = DeckConfig::new();
    let mut cards = vec![
        card(Rank::Ace, Suit::Clubs, &cfg),
        card(Rank::Two, Suit::Clubs, &cfg),
        card(Rank::Three, Suit::Clubs, &cfg),
    ];
    let indices = vec![0, 1, 2, 3]; // 3 does not exist as index
    assert!(Run::new(&mut cards, &indices).is_err());
}

#[test]
fn invalid_run_high_rank() {
    let mut high_rank_cfg = DeckConfig::new();
    high_rank_cfg.high_rank = Some(Rank::Two);
    let mut cards = vec![
        card(Rank::King, Suit::Clubs, &high_rank_cfg),
        card(Rank::Ace, Suit::Clubs, &high_rank_cfg),
        card(Rank::Two, Suit::Clubs, &high_rank_cfg),
        card(Rank::Three, Suit::Clubs, &high_rank_cfg),
    ];
    let indices = vec![0, 1, 2, 3];
    // Two is now highest, so Three is no longer valid as a consecutive rank
    assert!(Run::new(&mut cards, &indices).is_err());
}

#[test]
fn valid_run() {
    let cfg = DeckConfig::new();
    let mut cards = vec![
        card(Rank::Ace, Suit::Clubs, &cfg),
        card(Rank::Two, Suit::Clubs, &cfg),
        card(Rank::Three, Suit::Clubs, &cfg),
    ];
    let backup_cards = cards.clone();
    let indices = vec![0, 1, 2];
    let run = Run::new(&mut cards, &indices);

    assert!(cards.len() == 0);
    assert!(run.is_ok());
    assert!(run.unwrap().cards() == &backup_cards);
}

#[test]
fn valid_run_wrong_order_indices() {
    let cfg = DeckConfig::new();
    let mut cards = vec![
        card(Rank::Ace, Suit::Clubs, &cfg),
        card(Rank::Two, Suit::Clubs, &cfg),
        card(Rank::Three, Suit::Clubs, &cfg),
    ];
    let backup_cards = cards.clone();
    let indices = vec![2, 0, 1]; // in the wrong order
    let run = Run::new(&mut cards, &indices);

    assert!(cards.len() == 0);
    assert!(run.is_ok());
    assert!(run.unwrap().cards() == &backup_cards);
}

#[test]
fn valid_run_wildcard() {
    let mut cfg = DeckConfig::new();
    cfg.wildcard_rank = Some(Rank::Jack);
    let mut cards = vec![
        card(Rank::Ace, Suit::Clubs, &cfg),
        card(Rank::Jack, Suit::Clubs, &cfg), // the wildcard
        card(Rank::Two, Suit::Clubs, &cfg),
    ];
    let mut backup_cards = cards.clone();
    rummy::cards::card::sort_cards_by_value(&mut backup_cards);
    let indices = vec![0, 1, 2];
    let run = Run::new(&mut cards, &indices);

    assert!(cards.len() == 0);
    assert!(run.is_ok());
    assert!(run.unwrap().cards() == &backup_cards);
}

#[test]
fn valid_run_high_rank() {
    let mut high_rank_cfg = DeckConfig::new();
    high_rank_cfg.high_rank = Some(Rank::Two); // high rank is Two...
    let mut cards = vec![
        // ... so this should be valid with King being the lowest rank.
        card(Rank::King, Suit::Clubs, &high_rank_cfg),
        card(Rank::Ace, Suit::Clubs, &high_rank_cfg),
        card(Rank::Two, Suit::Clubs, &high_rank_cfg),
    ];
    let backup_cards = cards.clone();
    let indices = vec![0, 1, 2];
    let run = Run::new(&mut cards, &indices);

    assert!(cards.len() == 0);
    assert!(run.is_ok());
    assert!(run.unwrap().cards() == &backup_cards);
}

#[test]
fn invalid_layoff_run() {
    let cfg = DeckConfig::new();
    let cards = vec![
        card(Rank::Ace, Suit::Clubs, &cfg),
        card(Rank::Two, Suit::Clubs, &cfg),
        card(Rank::Three, Suit::Clubs, &cfg),
    ];
    let indices = vec![0, 1, 2];
    let mut run = Run::new(&mut cards.clone(), &indices).unwrap();
    let mut layoff_cards = vec![
        card(Rank::Five, Suit::Clubs, &cfg),  // not consecutive rank
        card(Rank::Four, Suit::Spades, &cfg), // wrong suit
    ];

    assert!(run.layoff_card(&mut layoff_cards, 0).is_err());
    assert!(run.layoff_card(&mut layoff_cards, 1).is_err());
}

#[test]
fn valid_layoff_run() {
    let cfg = DeckConfig::new();
    let cards = vec![
        card(Rank::Two, Suit::Clubs, &cfg),
        card(Rank::Three, Suit::Clubs, &cfg),
        card(Rank::Four, Suit::Clubs, &cfg),
        card(Rank::Five, Suit::Clubs, &cfg),
    ];
    let indices = vec![0, 1, 2, 3];
    let mut run = Run::new(&mut cards.clone(), &indices).unwrap();
    let mut layoff_cards = vec![
        card(Rank::Ace, Suit::Clubs, &cfg), // at bottom of meld,
        card(Rank::Six, Suit::Clubs, &cfg), // and top of meld
    ];

    assert!(run.layoff_card(&mut layoff_cards, 0).is_ok());
    assert!(run.layoff_card(&mut layoff_cards, 0).is_ok());
    assert!(layoff_cards.len() == 0);
    assert!(
        run.cards()
            == &vec![
                card(Rank::Ace, Suit::Clubs, &cfg),
                card(Rank::Two, Suit::Clubs, &cfg),
                card(Rank::Three, Suit::Clubs, &cfg),
                card(Rank::Four, Suit::Clubs, &cfg),
                card(Rank::Five, Suit::Clubs, &cfg),
                card(Rank::Six, Suit::Clubs, &cfg)
            ]
    );
}

#[test]
fn add_wildcard_layoff_run() {
    let mut cfg = DeckConfig::new();
    cfg.wildcard_rank = Some(Rank::Joker);

    let cards = vec![
        card(Rank::Two, Suit::Clubs, &cfg),
        card(Rank::Three, Suit::Clubs, &cfg),
        card(Rank::Four, Suit::Clubs, &cfg),
    ];
    let indices = vec![0, 1, 2];
    let mut run = Run::new(&mut cards.clone(), &indices).unwrap();
    let mut card_vec = vec![card(Rank::Joker, Suit::Joker, &cfg)];

    assert!(run.layoff_card(&mut card_vec, 0).is_ok());
    assert!(card_vec.len() == 0);
    assert!(
        run.cards()
            == &vec![
                card(Rank::Two, Suit::Clubs, &cfg),
                card(Rank::Three, Suit::Clubs, &cfg),
                card(Rank::Four, Suit::Clubs, &cfg),
                card(Rank::Joker, Suit::Joker, &cfg)
            ]
    );
}

#[test]
fn replace_wildcard_layoff_run() {
    let mut cfg = DeckConfig::new();
    cfg.wildcard_rank = Some(Rank::Joker);

    let cards = vec![
        card(Rank::Two, Suit::Clubs, &cfg),
        card(Rank::Three, Suit::Clubs, &cfg),
        card(Rank::Joker, Suit::Joker, &cfg), // replace this with actual card
        card(Rank::Five, Suit::Clubs, &cfg),
    ];
    let indices = vec![0, 1, 2, 3];
    let mut run = Run::new(&mut cards.clone(), &indices).unwrap();
    let mut card_vec = vec![card(Rank::Four, Suit::Clubs, &cfg)];

    assert!(run.layoff_card(&mut card_vec, 0).is_ok());
    assert!(card_vec == vec![card(Rank::Joker, Suit::Joker, &cfg)]);
    assert!(
        run.cards()
            == &vec![
                card(Rank::Two, Suit::Clubs, &cfg),
                card(Rank::Three, Suit::Clubs, &cfg),
                card(Rank::Four, Suit::Clubs, &cfg),
                card(Rank::Five, Suit::Clubs, &cfg),
            ]
    );
}
