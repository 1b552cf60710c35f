//! The [`BasicRummyGame`], an implementation of basic Rummy.

use vstd::prelude::*;

use crate::basic::config::BasicConfig;
use crate::basic::rules::{default_deal_amount, BasicRules};
use crate::basic::score::hand_score;
use crate::basic::score::BasicScore;
use crate::basic::state::BasicState;
use crate::cards::card::{Card, CardData};
use crate::cards::deck::{coerced_config, generated_seq, pack_block_size, DeckConfig};
use crate::cards::suit_rank::Rank;
use crate::game::action::GameAction;
use crate::game::error::{ActionError, GameError, GameSetupError, InternalError};
use crate::game::game::Game;
use crate::game::score::RoundScore;
use crate::game::state::{active_count, setup_active_count, GamePhase, GameState};
use crate::player::Player;

verus! {

broadcast use vstd::std_specs::hash::group_hash_axioms;

/// The index of the first player with the given ID (the player count when
/// there is none).
pub open spec fn first_index_with_id(players: Seq<Player>, id: usize, from: int) -> int
    decreases players.len() - from,
{
    if from < 0 || from >= players.len() {
        players.len() as int
    } else if players[from].id == id {
        from
    } else {
        first_index_with_id(players, id, from + 1)
    }
}

/// The scan for an ID lands on the first matching seat, or runs off the
/// end when no seat matches.
pub proof fn lemma_first_index_with_id(players: Seq<Player>, id: usize, from: int)
    requires
        0 <= from <= players.len(),
    ensures
        from <= first_index_with_id(players, id, from) <= players.len(),
        first_index_with_id(players, id, from) < players.len() ==> players[first_index_with_id(
            players,
            id,
            from,
        )].id == id,
        forall|j: int|
            from <= j < first_index_with_id(players, id, from) ==> (#[trigger] players[j]).id
                != id,
    decreases players.len() - from,
{
    if from < players.len() && players[from].id != id {
        lemma_first_index_with_id(players, id, from + 1);
    }
}

/// The total number of cards a deck generated from `config` holds.
pub open spec fn spec_deck_size(config: DeckConfig) -> int {
    config.pack_count * pack_block_size(config)
}

/// A deck that passed the setup check can deal every counted seat: its
/// regenerated pack holds at least `active * deal` cards.
proof fn lemma_deal_fits(config: DeckConfig, active: int, deal: int, draw: int)
    requires
        active >= 2,
        deal >= 0,
        draw >= 0,
        spec_deck_size(config) >= active * (deal + draw),
    ensures
        active * deal <= generated_seq(coerced_config(config)).len(),
{
    let block = pack_block_size(config);
    assert(pack_block_size(coerced_config(config)) == block);
    if config.pack_count >= 1 {
        assert(coerced_config(config) == config);
        assert(generated_seq(coerced_config(config)).len() == spec_deck_size(config));
        assert(active * deal <= active * (deal + draw)) by (nonlinear_arith)
            requires
                active >= 0,
                draw >= 0,
        ;
    } else {
        assert(spec_deck_size(config) == 0);
        assert(active * (deal + draw) <= 0);
        assert(active * deal <= 0 && active * (deal + draw) >= active * deal)
            by (nonlinear_arith)
            requires
                active >= 2,
                deal >= 0,
                draw >= 0,
                active * (deal + draw) <= 0,
        ;
    }
}

/// When every seat is active, the whole table counts for the next round's
/// setup.
pub proof fn lemma_setup_active_all(players: Seq<Player>, round: int)
    requires
        forall|i: int| 0 <= i < players.len() ==> (#[trigger] players[i]).active,
    ensures
        setup_active_count(players, round) == players.len(),
    decreases players.len(),
{
    if players.len() > 0 {
        lemma_setup_active_all(players.drop_last(), round);
    }
}

/// The cards the given data describe, all carrying one deck configuration.
pub open spec fn cards_of_data(data: Seq<CardData>, config: DeckConfig) -> Seq<Card> {
    data.map_values(|d: CardData| Card { rank: d.rank, suit: d.suit, deck_config: config })
}

/// The rank-and-suit data of the given cards.
pub open spec fn data_of_cards(cards: Seq<Card>) -> Seq<CardData> {
    cards.map_values(|c: Card| CardData { rank: c.rank, suit: c.suit })
}

/// The basic/standard form of Rummy.
#[derive(Debug, Clone)]
pub struct BasicRummyGame {
    pub state: GameState<BasicScore, BasicState>,
    pub rules: BasicRules,
}

impl BasicRummyGame {
    /// What the game maintains across calls: its deck's configuration can
    /// always be regenerated.
    pub open spec fn spec_ready(self) -> bool {
        self.state.deck.spec_config().pack_count <= usize::MAX / 54
    }

    /// Initialize the Rummy game.
    ///
    /// Returns `Err(TooFewPlayers)` if fewer than 2 players were given,
    /// and `Err(NotEnoughCards)` if the deck cannot deal every player and
    /// still give each one draw from the stock; otherwise the game is
    /// ready at the end of round 0, every player active and empty-handed.
    pub fn new(player_ids: Vec<usize>, config: BasicConfig, deck_config: DeckConfig) -> (r: Result<
        BasicRummyGame,
        GameSetupError,
    >)
        requires
            deck_config.pack_count <= usize::MAX / 54,
        ensures
            ({
                let n = player_ids@.len() as int;
                let deal = match config.deal_amount {
                    Option::Some(c) => c as int,
                    Option::None => default_deal_amount(n),
                };
                let draw = match config.draw_deck_amount {
                    Option::Some(v) => v as int,
                    Option::None => 1int,
                };
                let size = spec_deck_size(coerced_config(deck_config));
                &&& (n < 2 ==> (r matches Err(e) && e == GameSetupError::TooFewPlayers))
                &&& (n >= 2 && size < n * (deal + draw) ==> (r matches Err(e) && e
                    == GameSetupError::NotEnoughCards))
                &&& (n >= 2 && size >= n * (deal + draw) ==> r is Ok)
            }),
            r matches Ok(game) ==> {
                &&& game.spec_ready()
                &&& game.rules.config == config
                &&& game.state.phase == GamePhase::RoundEnd
                &&& game.state.players@.len() == player_ids@.len()
                &&& forall|i: int|
                    0 <= i < game.state.players@.len() ==> {
                        let p = #[trigger] game.state.players@[i];
                        &&& p.id == player_ids@[i]
                        &&& p.active
                        &&& p.joined_in_round == 0
                        &&& p.cards@.len() == 0
                        &&& p.melds@.len() == 0
                    }
                &&& game.state.current_player == 0
                &&& game.state.current_round == 0
                &&& game.state.round_scores@ == Map::<usize, RoundScore<BasicScore>>::empty()
                &&& game.state.deck.spec_config() == coerced_config(deck_config)
                &&& game.state.deck.spec_discard() == Seq::<Card>::empty()
                &&& game.state.deck.spec_stock().len() == generated_seq(
                    coerced_config(deck_config),
                ).len()
                &&& game.state.deck.spec_stock().to_multiset() == generated_seq(
                    coerced_config(deck_config),
                ).to_multiset()
                &&& (coerced_config(deck_config).shuffle_seed == Option::Some(0u64)
                    ==> game.state.deck.spec_stock() == generated_seq(
                    coerced_config(deck_config),
                ))
                &&& setup_active_count(game.state.players@, 0) == player_ids@.len()
            },
    {
        let state: GameState<BasicScore, BasicState> = GameState::initialize(
            player_ids,
            deck_config,
            BasicState {  },
        );
        let rules = BasicRules::new(config);
        let game = BasicRummyGame { state, rules };
        proof {
            lemma_setup_active_all(game.state.players@, 0);
            assert(game.state.deck.spec_config() == coerced_config(deck_config));
            assert(spec_deck_size(game.state.deck.spec_config()) == spec_deck_size(
                coerced_config(deck_config),
            ));
        }
        match game.validate_setup() {
            Ok(()) => Ok(game),
            Err(e) => Err(e),
        }
    }

    /// Validates the setup of the game: at least 2 players must count for
    /// the coming round, and the deck must be able to deal every one of
    /// them and still give each one draw from the stock.
    fn validate_setup(&self) -> (r: Result<(), GameSetupError>)
        requires
            self.spec_ready(),
        ensures
            ({
                let active = setup_active_count(
                    self.state.players@,
                    self.state.current_round as int,
                );
                let deal = self.rules.spec_deal_amount(
                    self.state.players@,
                    self.state.current_round as int,
                );
                let draw = self.rules.spec_draw_deck_amount();
                if active < 2 {
                    r matches Err(e) && e == GameSetupError::TooFewPlayers
                } else if spec_deck_size(self.state.deck.spec_config()) < active * (deal + draw) {
                    r matches Err(e) && e == GameSetupError::NotEnoughCards
                } else {
                    r is Ok
                }
            }),
    {
        let round = self.state.current_round;
        let n = self.state.players.len();
        let mut active: usize = 0;
        let mut i: usize = 0;
        while i < n
            invariant
                i <= n,
                n == self.state.players@.len(),
                active == setup_active_count(self.state.players@.take(i as int), round as int),
                active <= i,
            decreases n - i,
        {
            proof {
                assert(self.state.players@.take(i as int + 1).drop_last()
                    =~= self.state.players@.take(i as int));
            }
            if self.state.players[i].active || self.state.players[i].joined_in_round == round {
                active = active + 1;
            }
            i = i + 1;
        }
        proof {
            assert(self.state.players@.take(n as int) =~= self.state.players@);
        }
        if active < 2 {
            return Err(GameSetupError::TooFewPlayers);
        }

        let deal_amount = self.rules.cards_to_deal(&self.state);
        let draw_amount = self.rules.cards_to_draw_from_deck(&self.state);

        let pack_count = self.state.deck.config().pack_count;
        let per_pack: usize = match self.state.deck.config().wildcard_rank {
            Option::Some(Rank::Joker) => 54,
            _ => 52,
        };
        let deck_size = pack_count * per_pack;
        proof {
            assert(deck_size == spec_deck_size(self.state.deck.spec_config()));
        }

        let min_draw_size = match deal_amount.checked_add(draw_amount) {
            Option::Some(per_player) => match active.checked_mul(per_player) {
                Option::Some(m) => m,
                Option::None => {
                    proof {
                        assert(active * (deal_amount + draw_amount) > usize::MAX)
                            by (nonlinear_arith)
                            requires
                                active * (deal_amount as int + draw_amount as int) > usize::MAX
                                    || active * (deal_amount + draw_amount) > usize::MAX,
                        ;
                        assert(deck_size < active * (deal_amount + draw_amount));
                    }
                    return Err(GameSetupError::NotEnoughCards);
                },
            },
            Option::None => {
                proof {
                    assert(active >= 2);
                    assert(active * (deal_amount + draw_amount) >= deal_amount + draw_amount)
                        by (nonlinear_arith)
                        requires
                            active >= 2,
                            deal_amount + draw_amount > 0,
                    ;
                }
                return Err(GameSetupError::NotEnoughCards);
            },
        };

        if deck_size < min_draw_size {
            Err(GameSetupError::NotEnoughCards)
        } else {
            Ok(())
        }
    }
}


/// How often cards with the given rank-and-suit data occur in `s`.
pub open spec fn data_count(s: Seq<Card>, d: CardData) -> int
    decreases s.len(),
{
    if s.len() == 0 {
        0
    } else {
        data_count(s.drop_last(), d) + if s.last().rank == d.rank && s.last().suit == d.suit {
            1int
        } else {
            0int
        }
    }
}

/// Data that never occurs counts zero; data at some position counts at
/// least once.
proof fn lemma_data_count_zero(s: Seq<Card>, d: CardData)
    requires
        forall|i: int|
            0 <= i < s.len() ==> !((#[trigger] s[i]).rank == d.rank && s[i].suit == d.suit),
    ensures
        data_count(s, d) == 0,
    decreases s.len(),
{
    if s.len() > 0 {
        lemma_data_count_zero(s.drop_last(), d);
    }
}

/// Counts the cards of `cards` carrying the given rank and suit.
fn count_data(cards: &Vec<Card>, d: CardData) -> (n: usize)
    ensures
        n == data_count(cards@, d),
{
    let len = cards.len();
    let mut n: usize = 0;
    let mut i: usize = 0;
    while i < len
        invariant
            i <= len,
            len == cards@.len(),
            n == data_count(cards@.take(i as int), d),
            n <= i,
        decreases len - i,
    {
        proof {
            assert(cards@.take(i as int + 1).drop_last() =~= cards@.take(i as int));
        }
        if cards[i].rank == d.rank && cards[i].suit == d.suit {
            n = n + 1;
        }
        i = i + 1;
    }
    proof {
        assert(cards@.take(len as int) =~= cards@);
    }
    n
}

/// Whether two hands hold exactly the same cards by rank and suit, with
/// multiplicity.
fn same_card_data(a: &Vec<Card>, b: &Vec<Card>) -> (r: bool)
    ensures
        r == (a@.len() == b@.len() && forall|d: CardData|
            #[trigger] data_count(a@, d) == data_count(b@, d)),
{
    if a.len() != b.len() {
        return false;
    }
    let len = a.len();
    let mut i: usize = 0;
    while i < len
        invariant
            i <= len,
            len == a@.len(),
            a@.len() == b@.len(),
            forall|k: int|
                0 <= k < i ==> {
                    let d = (CardData {
                        rank: (#[trigger] a@[k]).rank,
                        suit: a@[k].suit,
                    });
                    data_count(a@, d) == data_count(b@, d)
                },
        decreases len - i,
    {
        let d = a[i].data();
        if count_data(a, d) != count_data(b, d) {
            return false;
        }
        i = i + 1;
    }
    let mut j: usize = 0;
    while j < len
        invariant
            j <= len,
            len == a@.len(),
            a@.len() == b@.len(),
            forall|k: int|
                0 <= k < a@.len() ==> {
                    let d = (CardData {
                        rank: (#[trigger] a@[k]).rank,
                        suit: a@[k].suit,
                    });
                    data_count(a@, d) == data_count(b@, d)
                },
            forall|k: int|
                0 <= k < j ==> {
                    let d = (CardData {
                        rank: (#[trigger] b@[k]).rank,
                        suit: b@[k].suit,
                    });
                    data_count(a@, d) == data_count(b@, d)
                },
        decreases len - j,
    {
        let d = b[j].data();
        if count_data(a, d) != count_data(b, d) {
            return false;
        }
        j = j + 1;
    }
    proof {
        assert forall|d: CardData| #[trigger] data_count(a@, d) == data_count(b@, d) by {
            if exists|k: int|
                0 <= k < a@.len() && (#[trigger] a@[k]).rank == d.rank && a@[k].suit == d.suit {
                let k = choose|k: int|
                    0 <= k < a@.len() && (#[trigger] a@[k]).rank == d.rank && a@[k].suit == d.suit;
                assert(data_count(a@, (CardData { rank: a@[k].rank, suit: a@[k].suit }))
                    == data_count(b@, (CardData { rank: a@[k].rank, suit: a@[k].suit })));
            } else if exists|k: int|
                0 <= k < b@.len() && (#[trigger] b@[k]).rank == d.rank && b@[k].suit == d.suit {
                let k = choose|k: int|
                    0 <= k < b@.len() && (#[trigger] b@[k]).rank == d.rank && b@[k].suit == d.suit;
                assert(data_count(a@, (CardData { rank: b@[k].rank, suit: b@[k].suit }))
                    == data_count(b@, (CardData { rank: b@[k].rank, suit: b@[k].suit })));
            } else {
                lemma_data_count_zero(a@, d);
                lemma_data_count_zero(b@, d);
            }
        }
    }
    true
}


impl Game for BasicRummyGame {
    type Rules = BasicRules;

    open spec fn ready(&self) -> bool {
        self.spec_ready()
    }

    /// Attempt to execute the `GameAction` for the current player. A
    /// failed action leaves the game untouched; a successful one keeps
    /// every card of the round in play.
    fn execute_action(&mut self, action: GameAction) -> (r: Result<(), ActionError>)
        ensures
            final(self).rules == old(self).rules,
            !crate::game::state::phase_allows(old(self).state.phase, action) ==> (r matches Err(e)
                && e == ActionError::FailedAction(
                crate::game::error::FailedActionError::InvalidGamePhase {
                    current_phase: old(self).state.phase,
                },
            )) && *final(self) == *old(self),
            (r matches Err(e) && e matches ActionError::FailedAction(_)) ==> *final(self) == *old(
                self,
            ),
            final(self).state.total_card_count() == old(self).state.total_card_count(),
            final(self).state.total_card_multiset() == old(self).state.total_card_multiset(),
            r is Ok ==> final(self).state.players@.len() == old(self).state.players@.len(),
            r is Ok ==> final(self).state.current_round == old(self).state.current_round,
            crate::game::state::phase_allows(old(self).state.phase, action) ==> ({
                let rules = old(self).rules;
                let pre = old(self).state;
                let post = final(self).state;
                &&& (action matches GameAction::DrawDeck(a) ==> rules.draw_deck_post(
                    pre,
                    a,
                    post,
                    r,
                ))
                &&& (action matches GameAction::DrawDiscardPile(a)
                    ==> rules.draw_discard_pile_post(pre, a, post, r))
                &&& (action matches GameAction::LayOff(a) ==> rules.lay_off_post(pre, a, post, r))
                &&& (action matches GameAction::FormMeld(a) ==> rules.form_meld_post(
                    pre,
                    a,
                    post,
                    r,
                ))
                &&& (action matches GameAction::FormMelds(a) ==> rules.form_melds_post(
                    pre,
                    a,
                    post,
                    r,
                ))
                &&& (action matches GameAction::Discard(a) ==> rules.discard_post(
                    pre,
                    a,
                    post,
                    r,
                ))
            }),
    {
        self.rules.execute_action(&mut self.state, action)
    }

    /// Inspect the game's current state.
    fn get_state(&self) -> (r: &GameState<BasicScore, BasicState>)
        ensures
            r == &self.state,
    {
        &self.state
    }

    /// Quit the (first) player whose ID is `player_id`: they become
    /// inactive, and the game ends when fewer than 2 active players
    /// remain.
    fn quit_player(&mut self, player_id: usize) -> (r: Result<(), GameError>)
        ensures
            final(self).rules == old(self).rules,
            ({
                let ps = old(self).state.players@;
                let j = first_index_with_id(ps, player_id, 0);
                if j >= ps.len() {
                    (r matches Err(e) && e == GameError::PlayerDoesntExist) && *final(self)
                        == *old(self)
                } else {
                    &&& r is Ok
                    &&& final(self).state.players@.len() == ps.len()
                    &&& forall|k: int|
                        0 <= k < ps.len() && k != j ==> final(self).state.players@[k] == ps[k]
                    &&& ({
                        let p = final(self).state.players@[j];
                        let q = ps[j];
                        p.id == q.id && p.cards == q.cards && p.melds == q.melds && !p.active
                            && p.joined_in_round == q.joined_in_round
                    })
                    &&& final(self).state.phase == (if crate::basic::rules::active_count(
                        final(self).state.players@,
                    ) < 2 {
                        GamePhase::GameEnd
                    } else {
                        old(self).state.phase
                    })
                    &&& final(self).state.deck == old(self).state.deck
                    &&& final(self).state.current_player == old(self).state.current_player
                    &&& final(self).state.current_round == old(self).state.current_round
                    &&& final(self).state.round_scores == old(self).state.round_scores
                    &&& final(self).state.variant_state == old(self).state.variant_state
                }
            }),
    {
        let n = self.state.players.len();
        let mut j: usize = 0;
        while j < n && self.state.players[j].id != player_id
            invariant
                j <= n,
                n == self.state.players@.len(),
                *self == *old(self),
                forall|k: int| 0 <= k < j ==> (#[trigger] self.state.players@[k]).id != player_id,
            decreases n - j,
        {
            j = j + 1;
        }
        proof {
            lemma_first_index_with_id(old(self).state.players@, player_id, 0);
            let f = first_index_with_id(old(self).state.players@, player_id, 0);
            if j < n {
                if f < j as int {
                    assert((#[trigger] old(self).state.players@[f]).id != player_id);
                }
                if f > j as int {
                    assert(old(self).state.players@[j as int].id != player_id);
                }
                assert(f == j as int);
            } else {
                if f < old(self).state.players@.len() {
                    assert(old(self).state.players@[f].id != player_id);
                }
            }
        }
        if j == n {
            return Err(GameError::PlayerDoesntExist);
        }

        let mut p = self.state.players.remove(j);
        p.active = false;
        state_insert_back(&mut self.state.players, j, p);
        proof {
            assert(self.state.players@ =~= old(self).state.players@.update(j as int, p));
        }

        // End the game if fewer than 2 active players remain.
        let num_active = crate::basic::rules::count_active_players(&self.state.players);
        if num_active < 2 {
            self.state.phase = GamePhase::GameEnd;
        }
        Ok(())
    }

    /// Add a new player with the given ID; they join inactive and start
    /// playing from the next round.
    fn add_player(&mut self, player_id: usize) -> (r: Result<(), GameError>)
        ensures
            final(self).rules == old(self).rules,
            ({
                let ps = old(self).state.players@;
                if first_index_with_id(ps, player_id, 0) < ps.len() {
                    (r matches Err(e) && e == GameError::AddedPlayerAlreadyExists) && *final(self)
                        == *old(self)
                } else {
                    &&& r is Ok
                    &&& final(self).state.players@.len() == ps.len() + 1
                    &&& forall|k: int|
                        0 <= k < ps.len() ==> final(self).state.players@[k] == ps[k]
                    &&& ({
                        let p = final(self).state.players@.last();
                        p.id == player_id && p.cards@.len() == 0 && p.melds@.len() == 0
                            && !p.active && p.joined_in_round == old(self).state.current_round
                    })
                    &&& final(self).state.phase == old(self).state.phase
                    &&& final(self).state.deck == old(self).state.deck
                    &&& final(self).state.current_player == old(self).state.current_player
                    &&& final(self).state.current_round == old(self).state.current_round
                    &&& final(self).state.round_scores == old(self).state.round_scores
                    &&& final(self).state.variant_state == old(self).state.variant_state
                }
            }),
    {
        let n = self.state.players.len();
        let mut j: usize = 0;
        while j < n && self.state.players[j].id != player_id
            invariant
                j <= n,
                n == self.state.players@.len(),
                *self == *old(self),
                forall|k: int| 0 <= k < j ==> (#[trigger] self.state.players@[k]).id != player_id,
            decreases n - j,
        {
            j = j + 1;
        }
        proof {
            lemma_first_index_with_id(old(self).state.players@, player_id, 0);
            let f = first_index_with_id(old(self).state.players@, player_id, 0);
            if j < n {
                if f < j as int {
                    assert((#[trigger] old(self).state.players@[f]).id != player_id);
                }
                if f > j as int {
                    assert(old(self).state.players@[j as int].id != player_id);
                }
                assert(f == j as int);
            } else {
                if f < old(self).state.players@.len() {
                    assert(old(self).state.players@[f].id != player_id);
                }
            }
        }
        if j < n {
            return Err(GameError::AddedPlayerAlreadyExists);
        }
        let new_player = Player::new(player_id, false, self.state.current_round);
        self.state.players.push(new_player);
        Ok(())
    }

    /// Replace the identified player's hand by `new_arrangement`, which
    /// must hold exactly the same cards (by rank and suit); used for
    /// manual sorting between draws and plays.
    fn rearrange_player_hand(&mut self, player_id: usize, new_arrangement: Vec<Card>) -> (r:
        Result<(), GameError>)
        ensures
            final(self).rules == old(self).rules,
            ({
                let ps = old(self).state.players@;
                let j = first_index_with_id(ps, player_id, 0);
                if old(self).state.phase != GamePhase::Draw && old(self).state.phase
                    != GamePhase::Play {
                    (r matches Err(e) && e == GameError::WrongGamePhase) && *final(self) == *old(
                        self,
                    )
                } else if j >= ps.len() {
                    (r matches Err(e) && e == GameError::PlayerDoesntExist) && *final(self)
                        == *old(self)
                } else if ps[j].cards@.len() == 0 || !(new_arrangement@.len()
                    == ps[j].cards@.len() && (forall|d: CardData|
                    #[trigger] data_count(ps[j].cards@, d) == data_count(
                        new_arrangement@,
                        d,
                    ))) {
                    (r matches Err(e) && e == GameError::FailedHandRearrangement) && *final(self)
                        == *old(self)
                } else {
                    &&& r is Ok
                    &&& final(self).state.players@.len() == ps.len()
                    &&& forall|k: int|
                        0 <= k < ps.len() && k != j ==> final(self).state.players@[k] == ps[k]
                    &&& ({
                        let p = final(self).state.players@[j];
                        let q = ps[j];
                        &&& p.id == q.id
                        &&& p.melds == q.melds
                        &&& p.active == q.active
                        &&& p.joined_in_round == q.joined_in_round
                        &&& p.cards@ == cards_of_data(
                            data_of_cards(new_arrangement@),
                            q.cards@[0].deck_config,
                        )
                    })
                    &&& final(self).state.phase == old(self).state.phase
                    &&& final(self).state.deck == old(self).state.deck
                    &&& final(self).state.current_player == old(self).state.current_player
                    &&& final(self).state.current_round == old(self).state.current_round
                    &&& final(self).state.round_scores == old(self).state.round_scores
                    &&& final(self).state.variant_state == old(self).state.variant_state
                }
            }),
    {
        let draw_phase = matches!(self.state.phase, GamePhase::Draw);
        let play_phase = matches!(self.state.phase, GamePhase::Play);
        if !draw_phase && !play_phase {
            return Err(GameError::WrongGamePhase);
        }
        let n = self.state.players.len();
        let mut j: usize = 0;
        while j < n && self.state.players[j].id != player_id
            invariant
                j <= n,
                n == self.state.players@.len(),
                *self == *old(self),
                forall|k: int| 0 <= k < j ==> (#[trigger] self.state.players@[k]).id != player_id,
            decreases n - j,
        {
            j = j + 1;
        }
        proof {
            lemma_first_index_with_id(old(self).state.players@, player_id, 0);
            let f = first_index_with_id(old(self).state.players@, player_id, 0);
            if j < n {
                if f < j as int {
                    assert((#[trigger] old(self).state.players@[f]).id != player_id);
                }
                if f > j as int {
                    assert(old(self).state.players@[j as int].id != player_id);
                }
                assert(f == j as int);
            } else {
                if f < old(self).state.players@.len() {
                    assert(old(self).state.players@[f].id != player_id);
                }
            }
        }
        if j == n {
            return Err(GameError::PlayerDoesntExist);
        }
        if self.state.players[j].cards.len() == 0 {
            return Err(GameError::FailedHandRearrangement);
        }
        if !same_card_data(&self.state.players[j].cards, &new_arrangement) {
            return Err(GameError::FailedHandRearrangement);
        }

        let deck_config = *self.state.players[j].cards[0].deck_config();
        let mut rebuilt: Vec<Card> = Vec::new();
        let mut i: usize = 0;
        while i < new_arrangement.len()
            invariant
                i <= new_arrangement@.len(),
                rebuilt@.len() == i,
                forall|k: int|
                    0 <= k < i ==> rebuilt@[k] == (Card {
                        rank: (#[trigger] new_arrangement@[k]).rank,
                        suit: new_arrangement@[k].suit,
                        deck_config,
                    }),
            decreases new_arrangement@.len() - i,
        {
            let c = new_arrangement[i];
            rebuilt.push(Card::new(c.rank, c.suit, &deck_config));
            i = i + 1;
        }

        let mut p = self.state.players.remove(j);
        p.cards = rebuilt;
        state_insert_back(&mut self.state.players, j, p);
        proof {
            assert(self.state.players@ =~= old(self).state.players@.update(j as int, p));
            assert(p.cards@ =~= cards_of_data(
                data_of_cards(new_arrangement@),
                old(self).state.players@[j as int].cards@[0].deck_config,
            ));
        }
        Ok(())
    }

    /// Calculate and store the ending round's scores (when a round was
    /// actually played) and deal the next round: active and joining seats
    /// get fresh hands, inactive seats stay empty.
    fn next_round(&mut self) -> (r: Result<(), GameError>)
        ensures
            final(self).rules == old(self).rules,
            old(self).state.phase != GamePhase::RoundEnd ==> (r matches Err(e) && e
                == GameError::WrongGamePhase) && *final(self) == *old(self),
            (r matches Err(e) && e matches GameError::FailedRoundSetup(_)) ==> *final(self)
                == *old(self),
            (r matches Err(e) && e == GameError::Internal(InternalError::RoundHasNoWinner))
                ==> *final(self) == *old(self),
            ({
                let st = old(self).state;
                let active = setup_active_count(st.players@, st.current_round as int);
                let deal = old(self).rules.spec_deal_amount(st.players@, st.current_round as int);
                let draw = old(self).rules.spec_draw_deck_amount();
                let size = spec_deck_size(st.deck.spec_config());
                &&& (st.phase == GamePhase::RoundEnd && active < 2 ==> (r matches Err(e) && e
                    == GameError::FailedRoundSetup(GameSetupError::TooFewPlayers)))
                &&& (st.phase == GamePhase::RoundEnd && active >= 2 && size < active * (deal
                    + draw) ==> (r matches Err(e) && e == GameError::FailedRoundSetup(
                    GameSetupError::NotEnoughCards,
                )))
                &&& (st.phase == GamePhase::RoundEnd && active >= 2 && size >= active * (deal
                    + draw) && (st.current_round == 0 || (exists|i: int|
                    0 <= i < st.players@.len() && hand_score(
                        (#[trigger] st.players@[i]).cards@,
                    ) == 0)) && st.current_round < usize::MAX ==> r is Ok)
            }),
            r is Ok ==> ({
                let st = old(self).state;
                let active = setup_active_count(st.players@, st.current_round as int);
                let deal = old(self).rules.spec_deal_amount(st.players@, st.current_round as int);
                &&& final(self).state.phase == GamePhase::Draw
                &&& final(self).state.current_round == (if st.current_round < usize::MAX {
                    st.current_round + 1
                } else {
                    usize::MAX as int
                })
                &&& final(self).state.players@.len() == st.players@.len()
                &&& forall|i: int|
                    0 <= i < final(self).state.players@.len() ==> {
                        let p = #[trigger] final(self).state.players@[i];
                        let q = st.players@[i];
                        &&& p.id == q.id
                        &&& p.joined_in_round == q.joined_in_round
                        &&& p.active == (q.active || q.joined_in_round == st.current_round)
                        &&& p.cards@.len() == (if p.active {
                            deal
                        } else {
                            0int
                        })
                        &&& p.melds@.len() == 0
                    }
                &&& final(self).state.deck.spec_discard() == Seq::<Card>::empty()
                &&& final(self).state.deck.spec_stock().len() == generated_seq(
                    coerced_config(st.deck.spec_config()),
                ).len() - active * deal
                &&& final(self).state.current_player == (if active_count(st.players@) > 0 {
                    st.current_round as int % active_count(st.players@)
                } else {
                    0int
                })
                &&& (st.current_round > 0 ==> final(self).state.round_scores@.dom()
                    =~= st.round_scores@.dom().insert(st.current_round))
                &&& (st.current_round == 0 ==> final(self).state.round_scores == st.round_scores)
            }),
    {
        if !matches!(self.state.phase, GamePhase::RoundEnd) {
            return Err(GameError::WrongGamePhase);
        }

        match self.validate_setup() {
            Ok(()) => {},
            Err(e) => {
                return Err(GameError::FailedRoundSetup(e));
            },
        }
        proof {
            lemma_deal_fits(
                self.state.deck.spec_config(),
                setup_active_count(self.state.players@, self.state.current_round as int),
                self.rules.spec_deal_amount(self.state.players@, self.state.current_round as int),
                self.rules.spec_draw_deck_amount(),
            );
        }

        if self.state.current_round != 0 {
            let round_score = match self.rules.calculate_round_score(&self.state) {
                Ok(rs) => rs,
                Err(e) => {
                    return Err(e);
                },
            };
            let round = self.state.current_round;
            self.state.round_scores.insert(round, round_score);
        }

        let cards_to_deal = self.rules.cards_to_deal(&self.state);
        let starting_player_index = self.rules.starting_player_index(&self.state);
        match self.state.start_new_round(cards_to_deal, starting_player_index) {
            Ok(()) => Ok(()),
            Err(e) => Err(e),
        }
    }
}

/// Puts a player back at the seat they were taken from.
fn state_insert_back(players: &mut Vec<Player>, j: usize, p: Player)
    requires
        j <= old(players)@.len(),
    ensures
        final(players)@ == old(players)@.insert(j as int, p),
{
    players.insert(j, p);
}

} // verus!
