use rummy::basic::config::BasicConfig;
use rummy::basic::game::BasicRummyGame;
use rummy::cards::deck::DeckConfig;
use rummy::game::action::{DrawDeckAction, FormMeldAction, GameAction};
use rummy::game::error::GameSetupError;
use rummy::game::game::Game;

fn create_basic_game(player_count: usize) -> Result<BasicRummyGame, GameSetupError> {
    let player_ids: Vec<usize> = (0..player_count).collect();
    let deck_config = DeckConfig {
        shuffle_seed: Some(1),
        pack_count: 1,
        high_rank: None,
        wildcard_rank: None,
    };
    let game_config = BasicConfig {
        deal_amount: None,
        draw_deck_amount: None,
        draw_discard_pile_amount: None,
    };
    BasicRummyGame::new(player_ids, game_config, deck_config)
}

#[test]
fn basic_flow() {
    // this flow tests creating a default game, going to the first round,
    // drawing a card, forming a meld, and discarding a card.
    //
    // the card states were checked beforehand with the preset shuffle seed.
    let mut game = create_basic_game(2).unwrap();
    game.next_round().unwrap();
    game.execute_action(GameAction::DrawDeck(DrawDeckAction {})).unwrap();

    let cur_player = game.get_state().get_current_player().unwrap();
    let id = cur_player.id();
    let mut hand = cur_player.cards().clone();
    rummy::cards::card::sort_cards_by_value(&mut hand);
    game.rearrange_player_hand(id, hand).unwrap();
    let indices = vec![1, 2, 3, 4];
    game.execute_action(GameAction::FormMeld(FormMeldAction {
        card_indices: indices,
    }))
    .unwrap();
}
