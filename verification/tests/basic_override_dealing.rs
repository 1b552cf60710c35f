use rummy::basic::config::BasicConfig;
use rummy::basic::game::BasicRummyGame;
use rummy::cards::deck::DeckConfig;
use rummy::game::error::GameSetupError;
use rummy::game::game::Game;

fn create_basic_game_with_config(
    player_count: usize,
    game_config: BasicConfig,
) -> Result<BasicRummyGame, GameSetupError> {
    let player_ids: Vec<usize> = (0..player_count).collect();
    let deck_config = DeckConfig {
        shuffle_seed: None,
        pack_count: 1,
        high_rank: None,
        wildcard_rank: None,
    };
    BasicRummyGame::new(player_ids, game_config, deck_config)
}

#[test]
fn override_deal_amount_is_correct() {
    let game_config = BasicConfig {
        deal_amount: Some(20),
        draw_deck_amount: None,
        draw_discard_pile_amount: None,
    };
    let mut game = create_basic_game_with_config(2, game_config).unwrap();
    game.next_round().unwrap();
    for player in &game.get_state().players {
        assert_eq!(player.cards().len(), 20);
    }
}

#[test]
fn override_is_correct_with_many_players() {
    let game_config = BasicConfig {
        deal_amount: Some(1),
        draw_deck_amount: None,
        draw_discard_pile_amount: None,
    };
    let mut game = create_basic_game_with_config(20, game_config).unwrap();
    game.next_round().unwrap();
    for player in &game.get_state().players {
        assert_eq!(player.cards().len(), 1);
    }
}

#[test]
fn override_fails_if_not_enough_cards() {
    let game_config = BasicConfig {
        deal_amount: Some(1),
        draw_deck_amount: None,
        draw_discard_pile_amount: None,
    };
    let game = create_basic_game_with_config(27, game_config);
    assert!(matches!(game, Err(GameSetupError::NotEnoughCards)));
}

#[test]
fn override_fails_if_one_player() {
    let game_config = BasicConfig {
        deal_amount: Some(1),
        draw_deck_amount: None,
        draw_discard_pile_amount: None,
    };
    let game = create_basic_game_with_config(1, game_config);
    assert!(matches!(game, Err(GameSetupError::TooFewPlayers)));
}
