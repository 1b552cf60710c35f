use rummy::basic::config::BasicConfig;
use rummy::basic::game::BasicRummyGame;
use rummy::cards::deck::{Deck, DeckConfig};
use rummy::cards::meld::{Meld, MeldError, Meldable, Run, SetMeld};
use rummy::cards::card::Card;
use rummy::cards::suit_rank::{Rank, Suit};
use rummy::game::action::{
    DiscardAction, DrawDeckAction, DrawDiscardPileAction, FormMeldAction, GameAction, LayOffAction,
};
use rummy::game::error::{ActionError, FailedActionError, GameError, GameSetupError};
use rummy::game::game::Game;
use rummy::game::state::GamePhase;

fn card(rank: Rank, suit: Suit, cfg: &DeckConfig) -> Card {
    Card::new(rank, suit, cfg)
}

fn no_shuffle_game(deal: usize, players: usize) -> BasicRummyGame {
    let player_ids: Vec<usize> = (0..players).collect();
    let deck_config = DeckConfig {
        shuffle_seed: Some(0),
        pack_count: 1,
        high_rank: None,
        wildcard_rank: None,
    };
    let game_config = BasicConfig {
        deal_amount: Some(deal),
        draw_deck_amount: None,
        draw_discard_pile_amount: None,
    };
    BasicRummyGame::new(player_ids, game_config, deck_config).unwrap()
}

/// The number of cards in the deck plus every hand and meld.
fn total_cards(game: &BasicRummyGame) -> usize {
    let state = game.get_state();
    let mut total = state.deck.stock().len() + state.deck.discard_pile().len();
    for p in &state.players {
        total += p.cards().len();
        for m in p.melds() {
            total += m.cards().len();
        }
    }
    total
}

/// Card conservation: through a round's worth of actions, the stock, the
/// discard pile, the hands and the melds always hold the full pack.
#[test]
fn cards_conserved_through_actions() {
    let mut game = no_shuffle_game(3, 2);
    game.next_round().unwrap();
    assert_eq!(total_cards(&game), 52);

    game.execute_action(GameAction::DrawDeck(DrawDeckAction {})).unwrap();
    assert_eq!(total_cards(&game), 52);

    // the unshuffled deal gives the first player the three Kings
    game.execute_action(GameAction::FormMeld(FormMeldAction {
        card_indices: vec![0, 1, 2],
    }))
    .unwrap();
    assert_eq!(total_cards(&game), 52);

    game.execute_action(GameAction::Discard(DiscardAction {
        card_index: 0,
        declare_going_out: None,
    }))
    .unwrap();
    assert_eq!(total_cards(&game), 52);
}

/// The first player of an unshuffled one-pack deal of 3 holds the Kings of
/// Diamonds, Hearts and Spades; going out ends and scores the round.
#[test]
fn going_out_scores_the_round() {
    let mut game = no_shuffle_game(3, 2);
    game.next_round().unwrap();

    let hand: Vec<_> = game.get_state().players[0]
        .cards()
        .iter()
        .map(|c| (c.rank, c.suit))
        .collect();
    assert_eq!(
        hand,
        vec![
            (Rank::King, Suit::Diamonds),
            (Rank::King, Suit::Hearts),
            (Rank::King, Suit::Spades)
        ]
    );

    game.execute_action(GameAction::DrawDeck(DrawDeckAction {})).unwrap();
    game.execute_action(GameAction::FormMeld(FormMeldAction {
        card_indices: vec![0, 1, 2],
    }))
    .unwrap();
    game.execute_action(GameAction::Discard(DiscardAction {
        card_index: 0,
        declare_going_out: None,
    }))
    .unwrap();

    assert_eq!(game.get_state().phase, GamePhase::RoundEnd);

    // moving to the next round stores the finished round's score
    game.next_round().unwrap();
    let scores = game.get_state().round_scores.get(&1).unwrap();
    assert_eq!(scores.winner_id, 0);
    assert_eq!(scores.player_scores.get(&0).unwrap().score(), 0);
    // the loser still held Queen of Hearts, Queen of Spades and King of Clubs
    assert_eq!(scores.player_scores.get(&1).unwrap().score(), 30);
}

/// Turn order: after a discard the turn passes to the next *active* seat,
/// wrapping past players who quit.
#[test]
fn discard_skips_inactive_players() {
    let mut game = no_shuffle_game(3, 3);
    game.next_round().unwrap();
    assert_eq!(game.get_state().current_player, 0);

    game.quit_player(1).unwrap();
    game.execute_action(GameAction::DrawDeck(DrawDeckAction {})).unwrap();
    game.execute_action(GameAction::Discard(DiscardAction {
        card_index: 0,
        declare_going_out: None,
    }))
    .unwrap();

    // seat 1 is inactive, so the turn went to seat 2
    assert_eq!(game.get_state().current_player, 2);
}

/// A failing multi-meld leaves the hand untouched, and duplicate indices
/// fail up front.
#[test]
fn duplicate_indices_leave_hand_untouched() {
    let cfg = DeckConfig::new();
    let mut hand = vec![
        card(Rank::Ace, Suit::Clubs, &cfg),
        card(Rank::Ace, Suit::Diamonds, &cfg),
        card(Rank::Ace, Suit::Hearts, &cfg),
        card(Rank::Two, Suit::Clubs, &cfg),
    ];
    let backup = hand.clone();

    let result = Meld::new(&mut hand, &vec![0, 1, 2, 0]);
    assert!(matches!(result, Err(MeldError::InvalidCardIndex)));
    assert_eq!(hand, backup);

    let melds = vec![vec![0, 1, 2], vec![2, 3]];
    let result = Meld::multiple(&mut hand, &melds);
    assert!(matches!(
        result,
        Err(MeldError::FailedMultipleMelds { meld_index: 0, .. })
    ));
    assert_eq!(hand, backup);
}

/// Forming several melds at once is atomic: one bad selection fails the
/// whole action, naming the failing meld; good selections all form.
#[test]
fn multiple_melds_form_atomically() {
    let cfg = DeckConfig::new();
    let mut hand = vec![
        card(Rank::Ace, Suit::Clubs, &cfg),
        card(Rank::Ace, Suit::Diamonds, &cfg),
        card(Rank::Ace, Suit::Hearts, &cfg),
        card(Rank::Five, Suit::Spades, &cfg),
        card(Rank::Six, Suit::Spades, &cfg),
        card(Rank::Seven, Suit::Spades, &cfg),
        card(Rank::Two, Suit::Clubs, &cfg),
    ];
    let backup = hand.clone();

    // the second selection is not a meld: everything stays as it was
    let result = Meld::multiple(&mut hand, &vec![vec![0, 1, 2], vec![3, 4, 6]]);
    assert!(matches!(
        result,
        Err(MeldError::FailedMultipleMelds { meld_index: 1, .. })
    ));
    assert_eq!(hand, backup);

    // two good selections form together
    let melds = Meld::multiple(&mut hand, &vec![vec![0, 1, 2], vec![3, 4, 5]]).unwrap();
    assert_eq!(melds.len(), 2);
    assert!(melds[0].is_set());
    assert!(melds[1].is_run());
    assert_eq!(hand.len(), 1);
    assert_eq!(hand[0].rank, Rank::Two);
}

/// A formed meld passes its own re-validation when its cards are checked
/// against the meld rules again.
#[test]
fn formed_melds_revalidate() {
    let cfg = DeckConfig {
        shuffle_seed: None,
        pack_count: 1,
        high_rank: None,
        wildcard_rank: Some(Rank::Joker),
    };
    let mut hand = vec![
        card(Rank::Two, Suit::Clubs, &cfg),
        card(Rank::Joker, Suit::Joker, &cfg),
        card(Rank::Four, Suit::Clubs, &cfg),
        card(Rank::Five, Suit::Clubs, &cfg),
    ];
    let meld = Meld::new(&mut hand, &vec![0, 1, 2, 3]).unwrap();
    let remade = meld.cards().clone();
    let identity: Vec<usize> = (0..remade.len()).collect();
    assert!(Meld::valid(&remade, &identity).is_ok());
    assert!(Run::valid(&remade, &identity).is_ok());

    let mut set_hand = vec![
        card(Rank::Nine, Suit::Clubs, &cfg),
        card(Rank::Joker, Suit::Joker, &cfg),
        card(Rank::Nine, Suit::Hearts, &cfg),
    ];
    let set_meld = Meld::new(&mut set_hand, &vec![0, 1, 2]).unwrap();
    let remade = set_meld.cards().clone();
    let identity: Vec<usize> = (0..remade.len()).collect();
    assert!(Meld::valid(&remade, &identity).is_ok());
    assert!(SetMeld::valid(&remade, &identity).is_ok());
}

/// A failing layoff leaves both the hand and the meld unchanged.
#[test]
fn failing_layoff_changes_nothing() {
    let cfg = DeckConfig::new();
    let mut cards = vec![
        card(Rank::Two, Suit::Hearts, &cfg),
        card(Rank::Three, Suit::Hearts, &cfg),
        card(Rank::Four, Suit::Hearts, &cfg),
    ];
    let mut meld = Meld::new(&mut cards, &vec![0, 1, 2]).unwrap();
    let meld_backup = meld.cards().clone();

    let mut hand = vec![
        card(Rank::Nine, Suit::Clubs, &cfg),
        card(Rank::Ten, Suit::Diamonds, &cfg),
    ];
    let hand_backup = hand.clone();

    assert!(meld.layoff_card(&mut hand, 0).is_err());
    assert!(meld.layoff_card(&mut hand, 7).is_err());
    assert_eq!(hand, hand_backup);
    assert_eq!(meld.cards(), &meld_backup);
}

/// An all-wildcard selection is no meld.
#[test]
fn all_wildcards_form_no_meld() {
    let cfg = DeckConfig {
        shuffle_seed: None,
        pack_count: 1,
        high_rank: None,
        wildcard_rank: Some(Rank::Joker),
    };
    let mut hand = vec![
        card(Rank::Joker, Suit::Joker, &cfg),
        card(Rank::Joker, Suit::Joker, &cfg),
        card(Rank::Joker, Suit::Joker, &cfg),
    ];
    assert!(matches!(
        SetMeld::new(&mut hand, &vec![0, 1, 2]),
        Err(MeldError::OnlyWildcards)
    ));
    assert!(matches!(
        Run::new(&mut hand, &vec![0, 1, 2]),
        Err(MeldError::OnlyWildcards)
    ));
}

/// A run whose gaps need more wildcards than were given fails with the
/// matching error.
#[test]
fn run_with_too_few_wildcards_fails() {
    let cfg = DeckConfig {
        shuffle_seed: None,
        pack_count: 1,
        high_rank: None,
        wildcard_rank: Some(Rank::Joker),
    };
    let mut hand = vec![
        card(Rank::Two, Suit::Clubs, &cfg),
        card(Rank::Five, Suit::Clubs, &cfg),
        card(Rank::Joker, Suit::Joker, &cfg),
    ];
    // the gap from Two to Five needs two wildcards; only one was given
    assert!(matches!(
        Run::new(&mut hand, &vec![0, 1, 2]),
        Err(MeldError::InsufficientWildcards)
    ));
}

/// A seeded shuffle really permutes the generated stock, and the same seed
/// always produces the same order.
#[test]
fn seeded_shuffle_is_deterministic_and_effective() {
    let cfg = DeckConfig {
        shuffle_seed: Some(1),
        pack_count: 1,
        high_rank: None,
        wildcard_rank: None,
    };
    let deck1 = Deck::new(cfg.clone());
    let deck2 = Deck::new(cfg.clone());
    assert_eq!(deck1.stock(), deck2.stock());

    // not in the unshuffled (ascending) order
    assert!(!deck1.stock().windows(2).all(|w| w[0] < w[1]));

    // still exactly one full pack
    let mut sorted = deck1.stock().clone();
    rummy::cards::card::sort_cards_by_value(&mut sorted);
    assert!(sorted.windows(2).all(|w| w[0] < w[1]));
    assert_eq!(sorted.len(), 52);
}

/// A random shuffle of the discarded cards brings them all back into the
/// stock.
#[test]
fn random_shuffle_keeps_every_card() {
    let mut deck = Deck::new(DeckConfig {
        shuffle_seed: Some(0),
        pack_count: 1,
        high_rank: None,
        wildcard_rank: None,
    });
    let mut cards = deck.draw(52).unwrap();
    deck.add_multiple_to_discard_pile(&mut cards);
    deck.shuffle_discarded();

    let mut sorted = deck.stock().clone();
    rummy::cards::card::sort_cards_by_value(&mut sorted);
    assert!(sorted.windows(2).all(|w| w[0] < w[1]));
    assert_eq!(sorted.len(), 52);
}

/// Wrong-phase actions fail without touching the game.
#[test]
fn wrong_phase_actions_fail() {
    let mut game = no_shuffle_game(3, 2);

    // no round started yet: the game is at a round end, nothing is legal
    let result = game.execute_action(GameAction::DrawDeck(DrawDeckAction {}));
    assert!(matches!(
        result,
        Err(ActionError::FailedAction(FailedActionError::InvalidGamePhase { .. }))
    ));

    game.next_round().unwrap();
    // drawing twice is illegal: the second draw happens in the play phase
    game.execute_action(GameAction::DrawDeck(DrawDeckAction {})).unwrap();
    let result = game.execute_action(GameAction::DrawDeck(DrawDeckAction {}));
    assert!(matches!(
        result,
        Err(ActionError::FailedAction(FailedActionError::InvalidGamePhase { .. }))
    ));

    // and a round can only start from a round end
    assert!(matches!(game.next_round(), Err(GameError::WrongGamePhase)));
}

/// Bad indices in actions come back as the matching failed-action errors.
#[test]
fn bad_action_indices_fail() {
    let mut game = no_shuffle_game(3, 2);
    game.next_round().unwrap();

    // the discard pile is empty at the start of a round
    let result = game.execute_action(GameAction::DrawDiscardPile(DrawDiscardPileAction {
        count: Some(1),
    }));
    assert!(matches!(
        result,
        Err(ActionError::FailedAction(FailedActionError::DiscardPileTooSmall))
    ));

    game.execute_action(GameAction::DrawDeck(DrawDeckAction {})).unwrap();

    let result = game.execute_action(GameAction::LayOff(LayOffAction {
        card_index: 0,
        target_player_index: 9,
        target_meld_index: 0,
    }));
    assert!(matches!(
        result,
        Err(ActionError::FailedAction(FailedActionError::InvalidPlayerIndex))
    ));

    let result = game.execute_action(GameAction::LayOff(LayOffAction {
        card_index: 0,
        target_player_index: 1,
        target_meld_index: 0,
    }));
    assert!(matches!(
        result,
        Err(ActionError::FailedAction(FailedActionError::InvalidMeldIndex))
    ));

    let result = game.execute_action(GameAction::Discard(DiscardAction {
        card_index: 99,
        declare_going_out: None,
    }));
    assert!(matches!(
        result,
        Err(ActionError::FailedAction(FailedActionError::InvalidCardIndex))
    ));
}

/// Rearranging a hand needs exactly the same cards, and a real player.
#[test]
fn rearrange_hand_checks_cards() {
    let mut game = no_shuffle_game(3, 2);
    game.next_round().unwrap();

    let cfg = game.get_state().deck.config().clone();
    let result = game.rearrange_player_hand(0, vec![card(Rank::Ace, Suit::Clubs, &cfg)]);
    assert!(matches!(result, Err(GameError::FailedHandRearrangement)));

    let result = game.rearrange_player_hand(42, vec![]);
    assert!(matches!(result, Err(GameError::PlayerDoesntExist)));

    // reversing the hand is fine
    let mut hand = game.get_state().players[0].cards().clone();
    hand.reverse();
    let expected: Vec<_> = hand.iter().map(|c| c.data()).collect();
    game.rearrange_player_hand(0, hand).unwrap();
    let now: Vec<_> = game.get_state().players[0].cards().iter().map(|c| c.data()).collect();
    assert_eq!(now, expected);
}

/// Laying a card off on another player's meld moves exactly that card.
#[test]
fn layoff_on_other_players_meld() {
    let mut game = no_shuffle_game(4, 2);
    game.next_round().unwrap();

    // the unshuffled deal gives player 0 the four Kings and player 1 the
    // four Queens
    let kings: Vec<_> = game.get_state().players[0]
        .cards()
        .iter()
        .map(|c| c.rank)
        .collect();
    assert_eq!(kings, vec![Rank::King; 4]);

    // player 0 melds three Kings and discards the fourth
    game.execute_action(GameAction::DrawDeck(DrawDeckAction {})).unwrap();
    game.execute_action(GameAction::FormMeld(FormMeldAction {
        card_indices: vec![0, 1, 2],
    }))
    .unwrap();
    game.execute_action(GameAction::Discard(DiscardAction {
        card_index: 0,
        declare_going_out: None,
    }))
    .unwrap();
    assert_eq!(game.get_state().phase, GamePhase::Draw);
    assert_eq!(game.get_state().current_player, 1);

    // player 1 picks the discarded King up and lays it off on player 0's
    // meld of Kings
    game.execute_action(GameAction::DrawDiscardPile(DrawDiscardPileAction {
        count: Some(1),
    }))
    .unwrap();
    let hand_len = game.get_state().players[1].cards().len();
    game.execute_action(GameAction::LayOff(LayOffAction {
        card_index: hand_len - 1,
        target_player_index: 0,
        target_meld_index: 0,
    }))
    .unwrap();

    assert_eq!(game.get_state().players[0].melds()[0].cards().len(), 4);
    assert_eq!(game.get_state().players[1].cards().len(), hand_len - 1);
    assert_eq!(total_cards(&game), 52);
}

/// Seven players cannot play with one pack, but can with two.
#[test]
fn seven_players_need_two_packs() {
    let ids: Vec<usize> = (0..7).collect();
    let config = BasicConfig {
        deal_amount: None,
        draw_deck_amount: None,
        draw_discard_pile_amount: None,
    };
    let one_pack = DeckConfig {
        shuffle_seed: Some(0),
        pack_count: 1,
        high_rank: None,
        wildcard_rank: None,
    };
    assert!(matches!(
        BasicRummyGame::new(ids.clone(), config.clone(), one_pack),
        Err(GameSetupError::NotEnoughCards)
    ));

    let two_packs = DeckConfig {
        shuffle_seed: Some(0),
        pack_count: 2,
        high_rank: None,
        wildcard_rank: None,
    };
    let mut game = BasicRummyGame::new(ids, config, two_packs).unwrap();
    game.next_round().unwrap();
    for player in &game.get_state().players {
        assert_eq!(player.cards().len(), 10);
    }
}

/// Every rank-and-suit pairing has its own value: the value function
/// totally orders a pack.
#[test]
fn card_values_are_distinct_across_the_pack() {
    let cfg = DeckConfig::new();
    let mut values = Vec::new();
    for rank in rummy::cards::suit_rank::playing_ranks() {
        for suit in rummy::cards::suit_rank::playing_suits() {
            values.push(card(rank, suit, &cfg).value());
        }
    }
    assert_eq!(values.len(), 52);
    values.sort();
    values.dedup();
    assert_eq!(values.len(), 52);
}

/// Scoring values: Ace counts 1, number cards their face value, face cards
/// 10.
#[test]
fn score_values_follow_the_table() {
    let cfg = DeckConfig::new();
    assert_eq!(card(Rank::Ace, Suit::Clubs, &cfg).score_value(), 1);
    assert_eq!(card(Rank::Seven, Suit::Hearts, &cfg).score_value(), 7);
    assert_eq!(card(Rank::Ten, Suit::Spades, &cfg).score_value(), 10);
    assert_eq!(card(Rank::Jack, Suit::Clubs, &cfg).score_value(), 10);
    assert_eq!(card(Rank::Queen, Suit::Diamonds, &cfg).score_value(), 10);
    assert_eq!(card(Rank::King, Suit::Hearts, &cfg).score_value(), 10);
    assert_eq!(card(Rank::Joker, Suit::Joker, &cfg).value(), 0);
}

/// Starting a round deals only the seats that will play it: a player who
/// quit keeps an empty hand, and the stock shrinks by the active deals
/// alone.
#[test]
fn new_round_skips_inactive_seats() {
    let mut game = no_shuffle_game(3, 3);
    game.next_round().unwrap();
    game.quit_player(1).unwrap();

    // finish the round: player 0 melds the Kings and goes out
    game.execute_action(GameAction::DrawDeck(DrawDeckAction {})).unwrap();
    game.execute_action(GameAction::FormMeld(FormMeldAction {
        card_indices: vec![0, 1, 2],
    }))
    .unwrap();
    game.execute_action(GameAction::Discard(DiscardAction {
        card_index: 0,
        declare_going_out: None,
    }))
    .unwrap();
    assert_eq!(game.get_state().phase, GamePhase::RoundEnd);

    game.next_round().unwrap();
    let state = game.get_state();
    assert_eq!(state.players[0].cards().len(), 3);
    assert_eq!(state.players[1].cards().len(), 0);
    assert!(!state.players[1].active());
    assert_eq!(state.players[2].cards().len(), 3);
    assert_eq!(state.deck.stock().len(), 52 - 6);
    assert_eq!(total_cards(&game), 52);
}
