//! The game state shared by every Rummy variant: phase, players, deck,
//! turn and round counters, and round scores.

use vstd::prelude::*;
use vstd::multiset::Multiset;

use std::collections::HashMap;

use crate::cards::card::Card;
use crate::cards::deck::{coerced_config, generated_seq, Deck, DeckConfig};
use crate::cards::meld::Meld;
use crate::game::action::GameAction;
use crate::game::error::{ActionError, FailedActionError, GameError, InternalError};
use crate::game::score::RoundScore;
use crate::player::Player;

verus! {

/// Represents the unique state held by a Rummy variant.
///
/// The game state consists of the general state, which all Rummy variants
/// have in common, and the variant state, which holds whatever a variant
/// uniquely requires. A variant without any such state uses an empty
/// struct. Variant-specific checks on actions belong to the variant's
/// `GameRules` handlers.
pub trait VariantState: Sized {

}

/// The phases of a Rummy game.
#[derive(Debug, Clone, Copy, PartialEq, Eq, Structural, Hash)]
pub enum GamePhase {
    Draw,
    Play,
    RoundEnd,
    GameEnd,
}

/// The cards held by a list of melds.
pub open spec fn melds_card_count(melds: Seq<Meld>) -> int
    decreases melds.len(),
{
    if melds.len() == 0 {
        0
    } else {
        melds_card_count(melds.drop_last()) + melds.last().spec_cards().len()
    }
}

/// The cards a player holds: their hand plus their melds on the table.
pub open spec fn player_card_count(p: Player) -> int {
    p.cards@.len() + melds_card_count(p.melds@)
}

/// The cards held by a list of players.
pub open spec fn players_card_count(ps: Seq<Player>) -> int
    decreases ps.len(),
{
    if ps.len() == 0 {
        0
    } else {
        players_card_count(ps.drop_last()) + player_card_count(ps.last())
    }
}

/// Replacing one player changes the total card count by the difference
/// between the new and the old player's cards.
pub proof fn lemma_players_count_update(ps: Seq<Player>, i: int, p: Player)
    requires
        0 <= i < ps.len(),
    ensures
        players_card_count(ps.update(i, p)) == players_card_count(ps) - player_card_count(ps[i])
            + player_card_count(p),
    decreases ps.len(),
{
    let ps2 = ps.update(i, p);
    if i == ps.len() - 1 {
        assert(ps2.drop_last() =~= ps.drop_last());
        assert(ps2.last() == p);
    } else {
        assert(ps2.drop_last() =~= ps.drop_last().update(i, p));
        assert(ps2.last() == ps.last());
        lemma_players_count_update(ps.drop_last(), i, p);
    }
}

/// The cards held by a list of players, as a multiset: each hand plus
/// each meld on the table.
pub open spec fn players_card_multiset(ps: Seq<Player>) -> Multiset<Card>
    decreases ps.len(),
{
    if ps.len() == 0 {
        Multiset::empty()
    } else {
        players_card_multiset(ps.drop_last()).add(player_card_multiset(ps.last()))
    }
}

/// The cards one player holds, as a multiset.
pub open spec fn player_card_multiset(p: Player) -> Multiset<Card> {
    p.cards@.to_multiset().add(crate::cards::meld::melds_multiset(p.melds@))
}

/// Replacing one player exchanges exactly that player's cards in the
/// table's combined multiset.
pub proof fn lemma_players_multiset_update(ps: Seq<Player>, i: int, p: Player)
    requires
        0 <= i < ps.len(),
    ensures
        players_card_multiset(ps.update(i, p)).add(player_card_multiset(ps[i]))
            == players_card_multiset(ps).add(player_card_multiset(p)),
    decreases ps.len(),
{
    broadcast use vstd::multiset::group_multiset_axioms;

    let ps2 = ps.update(i, p);
    if i == ps.len() - 1 {
        assert(ps2.drop_last() =~= ps.drop_last());
        assert(ps2.last() == p);
        assert(players_card_multiset(ps2).add(player_card_multiset(ps[i]))
            =~= players_card_multiset(ps).add(player_card_multiset(p)));
    } else {
        assert(ps2.drop_last() =~= ps.drop_last().update(i, p));
        assert(ps2.last() == ps.last());
        lemma_players_multiset_update(ps.drop_last(), i, p);
        assert(ps.drop_last()[i] == ps[i]);
        assert forall|c: Card|
            players_card_multiset(ps2).add(player_card_multiset(ps[i])).count(c)
                == players_card_multiset(ps).add(player_card_multiset(p)).count(c) by {
            let dlu = ps.drop_last().update(i, p);
            assert(players_card_multiset(ps2) == players_card_multiset(dlu).add(
                player_card_multiset(ps.last()),
            ));
            assert(players_card_multiset(dlu).add(player_card_multiset(ps[i])).count(c)
                == players_card_multiset(ps.drop_last()).add(player_card_multiset(p)).count(c));
            assert(players_card_multiset(ps) == players_card_multiset(ps.drop_last()).add(
                player_card_multiset(ps.last()),
            ));
        }
        assert(players_card_multiset(ps2).add(player_card_multiset(ps[i]))
            =~= players_card_multiset(ps).add(player_card_multiset(p)));
    }
}

/// Appending one meld adds its cards to a meld list's combined multiset.
pub proof fn lemma_melds_multiset_push(melds: Seq<Meld>, m: Meld)
    ensures
        crate::cards::meld::melds_multiset(melds.push(m)) == crate::cards::meld::melds_multiset(
            melds,
        ).add(m.spec_cards().to_multiset()),
{
    assert(melds.push(m).drop_last() =~= melds);
    assert(melds.push(m).last() == m);
}

/// Replacing one meld exchanges exactly that meld's cards in a meld list's
/// combined multiset.
pub proof fn lemma_melds_multiset_update(melds: Seq<Meld>, i: int, m: Meld)
    requires
        0 <= i < melds.len(),
    ensures
        crate::cards::meld::melds_multiset(melds.update(i, m)).add(
            melds[i].spec_cards().to_multiset(),
        ) == crate::cards::meld::melds_multiset(melds).add(m.spec_cards().to_multiset()),
    decreases melds.len(),
{
    broadcast use vstd::multiset::group_multiset_axioms;

    let ms2 = melds.update(i, m);
    if i == melds.len() - 1 {
        assert(ms2.drop_last() =~= melds.drop_last());
        assert(ms2.last() == m);
        assert(crate::cards::meld::melds_multiset(ms2).add(melds[i].spec_cards().to_multiset())
            =~= crate::cards::meld::melds_multiset(melds).add(m.spec_cards().to_multiset()));
    } else {
        assert(ms2.drop_last() =~= melds.drop_last().update(i, m));
        assert(ms2.last() == melds.last());
        lemma_melds_multiset_update(melds.drop_last(), i, m);
        assert(melds.drop_last()[i] == melds[i]);
        assert forall|c: Card|
            crate::cards::meld::melds_multiset(ms2).add(
                melds[i].spec_cards().to_multiset(),
            ).count(c) == crate::cards::meld::melds_multiset(melds).add(
                m.spec_cards().to_multiset(),
            ).count(c) by {
            let dlu = melds.drop_last().update(i, m);
            assert(crate::cards::meld::melds_multiset(ms2)
                == crate::cards::meld::melds_multiset(dlu).add(
                melds.last().spec_cards().to_multiset(),
            ));
            assert(crate::cards::meld::melds_multiset(dlu).add(
                melds[i].spec_cards().to_multiset(),
            ).count(c) == crate::cards::meld::melds_multiset(melds.drop_last()).add(
                m.spec_cards().to_multiset(),
            ).count(c));
            assert(crate::cards::meld::melds_multiset(melds)
                == crate::cards::meld::melds_multiset(melds.drop_last()).add(
                melds.last().spec_cards().to_multiset(),
            ));
        }
        assert(crate::cards::meld::melds_multiset(ms2).add(melds[i].spec_cards().to_multiset())
            =~= crate::cards::meld::melds_multiset(melds).add(m.spec_cards().to_multiset()));
    }
}

/// Concatenating meld lists adds their combined multisets.
pub proof fn lemma_melds_multiset_concat(a: Seq<Meld>, b: Seq<Meld>)
    ensures
        crate::cards::meld::melds_multiset(a + b) == crate::cards::meld::melds_multiset(a).add(
            crate::cards::meld::melds_multiset(b),
        ),
    decreases b.len(),
{
    broadcast use vstd::multiset::group_multiset_axioms;

    if b.len() == 0 {
        assert(a + b =~= a);
        assert(crate::cards::meld::melds_multiset(a + b) =~= crate::cards::meld::melds_multiset(
            a,
        ).add(crate::cards::meld::melds_multiset(b)));
    } else {
        lemma_melds_multiset_concat(a, b.drop_last());
        assert((a + b).drop_last() =~= a + b.drop_last());
        assert((a + b).last() == b.last());
        assert(crate::cards::meld::melds_multiset(a + b) =~= crate::cards::meld::melds_multiset(
            a,
        ).add(crate::cards::meld::melds_multiset(b)));
    }
}

/// How many players are currently active.
pub open spec fn active_count(players: Seq<Player>) -> int
    decreases players.len(),
{
    if players.len() == 0 {
        0
    } else {
        active_count(players.drop_last()) + if players.last().active {
            1int
        } else {
            0int
        }
    }
}

/// How many players count for the coming round's setup: those still
/// active, plus those who joined during the round that is ending.
pub open spec fn setup_active_count(players: Seq<Player>, round: int) -> int
    decreases players.len(),
{
    if players.len() == 0 {
        0
    } else {
        setup_active_count(players.drop_last(), round) + if players.last().active
            || players.last().joined_in_round == round {
            1int
        } else {
            0int
        }
    }
}

/// The setup count of a prefix never exceeds the whole table's, and the
/// whole table's never exceeds the table size.
pub proof fn lemma_setup_active_bounds(players: Seq<Player>, round: int, i: int)
    requires
        0 <= i <= players.len(),
    ensures
        0 <= setup_active_count(players.take(i), round) <= setup_active_count(players, round),
        setup_active_count(players, round) <= players.len(),
    decreases players.len(),
{
    if players.len() > 0 {
        lemma_setup_active_bounds(players.drop_last(), round, if i < players.len() {
            i
        } else {
            i - 1
        });
        if i < players.len() {
            assert(players.drop_last().take(i) =~= players.take(i));
        } else {
            assert(players.take(i) =~= players);
        }
    } else {
        assert(players.take(i) =~= players);
    }
}

/// After a round's activation pass, the active seats are exactly those
/// that counted for the setup.
proof fn lemma_active_after_activation(olds: Seq<Player>, finals: Seq<Player>, round: int)
    requires
        olds.len() == finals.len(),
        forall|k: int|
            0 <= k < finals.len() ==> (#[trigger] finals[k]).active == ((
            #[trigger] olds[k]).active || olds[k].joined_in_round == round),
    ensures
        active_count(finals) == setup_active_count(olds, round),
    decreases olds.len(),
{
    if olds.len() > 0 {
        lemma_active_after_activation(olds.drop_last(), finals.drop_last(), round);
    }
}

/// Whether the action kind is legal in the phase.
pub open spec fn phase_allows(phase: GamePhase, action: GameAction) -> bool {
    match (phase, action) {
        (GamePhase::Draw, GameAction::DrawDeck(_)) => true,
        (GamePhase::Draw, GameAction::DrawDiscardPile(_)) => true,
        (GamePhase::Play, GameAction::FormMeld(_)) => true,
        (GamePhase::Play, GameAction::FormMelds(_)) => true,
        (GamePhase::Play, GameAction::LayOff(_)) => true,
        (GamePhase::Play, GameAction::Discard(_)) => true,
        _ => false,
    }
}

/// How many seats past `cur` the next active player sits, starting the
/// search at offset `k`: the answer is in `1..=players.len()`, or
/// `players.len() + 1` when no seat is active.
pub open spec fn steps_to_next_active(players: Seq<Player>, cur: int, k: int) -> int
    decreases players.len() - k + 1,
{
    if players.len() == 0 || k < 1 || k > players.len() {
        players.len() as int + 1
    } else if players[(cur + k) % (players.len() as int)].active {
        k
    } else {
        steps_to_next_active(players, cur, k + 1)
    }
}

/// The search lands on the closest active seat after `cur`, skipping every
/// inactive seat before it; when no seat is active it runs off the end.
pub proof fn lemma_steps_to_next_active(players: Seq<Player>, cur: int, k: int)
    requires
        players.len() >= 1,
        1 <= k <= players.len() + 1,
    ensures
        k <= steps_to_next_active(players, cur, k) <= players.len() + 1,
        steps_to_next_active(players, cur, k) <= players.len() ==> players[(cur
            + steps_to_next_active(players, cur, k)) % (players.len() as int)].active,
        forall|j: int|
            k <= j < steps_to_next_active(players, cur, k) && j <= players.len() ==> !(
            #[trigger] players[(cur + j) % (players.len() as int)]).active,
        (steps_to_next_active(players, cur, k) == players.len() + 1 && k <= players.len())
            ==> !players[(cur + k) % (players.len() as int)].active,
    decreases players.len() - k + 1,
{
    if k <= players.len() && !players[(cur + k) % (players.len() as int)].active {
        lemma_steps_to_next_active(players, cur, k + 1);
    }
}

/// The state of the game. Includes state common across all variants like
/// players/deck/current round, as well as `variant_state` for
/// variant-specific state.
///
/// `S` is the variant's per-player score type and `V` its extra state.
///
/// ## Note
/// Ensure that mutable references to this are not handed outside of the
/// `Game`. Accidental wrong mutation of the state will probably lead to an
/// invalid gamestate.
#[derive(Debug, Clone)]
pub struct GameState<S, V> {
    pub phase: GamePhase,
    pub players: Vec<Player>,
    pub deck: Deck,
    pub current_player: usize,
    pub current_round: usize,
    pub round_scores: HashMap<usize, RoundScore<S>>,
    pub variant_state: V,
}

impl<S, V> GameState<S, V> {
    /// The number of cards in the deck's stock and discard pile plus every
    /// hand and every meld on the table.
    pub open spec fn total_card_count(self) -> int {
        self.deck.spec_stock().len() + self.deck.spec_discard().len() + players_card_count(
            self.players@,
        )
    }

    /// Every card of the round, with its multiplicity: the stock, the
    /// discard pile, every hand and every meld on the table together.
    pub open spec fn total_card_multiset(self) -> Multiset<Card> {
        self.deck.spec_stock().to_multiset().add(self.deck.spec_discard().to_multiset()).add(
            players_card_multiset(self.players@),
        )
    }

    /// Initialize the game state: every player starts active with an empty
    /// hand, a freshly created deck, and the game at the end of round 0 so
    /// that starting round 1 deals the first hands.
    pub fn initialize(player_ids: Vec<usize>, deck_config: DeckConfig, variant_state: V) -> (s:
        GameState<S, V>)
        requires
            deck_config.pack_count <= usize::MAX / 54,
        ensures
            s.phase == GamePhase::RoundEnd,
            s.players@.len() == player_ids@.len(),
            forall|i: int|
                0 <= i < s.players@.len() ==> {
                    let p = #[trigger] s.players@[i];
                    &&& p.id == player_ids@[i]
                    &&& p.active
                    &&& p.joined_in_round == 0
                    &&& p.cards@.len() == 0
                    &&& p.melds@.len() == 0
                },
            s.current_player == 0,
            s.current_round == 0,
            s.round_scores@ == Map::<usize, RoundScore<S>>::empty(),
            s.variant_state == variant_state,
            s.deck.spec_config() == coerced_config(deck_config),
            s.deck.spec_discard() == Seq::<Card>::empty(),
            s.deck.spec_stock().len() == generated_seq(coerced_config(deck_config)).len(),
            s.deck.spec_stock().to_multiset() == generated_seq(
                coerced_config(deck_config),
            ).to_multiset(),
            coerced_config(deck_config).shuffle_seed == Option::Some(0u64) ==> s.deck.spec_stock()
                == generated_seq(coerced_config(deck_config)),
    {
        let mut players: Vec<Player> = Vec::new();
        let mut i: usize = 0;
        while i < player_ids.len()
            invariant
                i <= player_ids@.len(),
                players@.len() == i,
                forall|k: int|
                    0 <= k < i ==> {
                        let p = #[trigger] players@[k];
                        &&& p.id == player_ids@[k]
                        &&& p.active
                        &&& p.joined_in_round == 0
                        &&& p.cards@.len() == 0
                        &&& p.melds@.len() == 0
                    },
            decreases player_ids@.len() - i,
        {
            players.push(Player::new(player_ids[i], true, 0));
            i = i + 1;
        }
        let deck = Deck::new(deck_config);
        GameState {
            phase: GamePhase::RoundEnd,
            players,
            deck,
            current_round: 0,
            current_player: 0,
            round_scores: HashMap::new(),
            variant_state,
        }
    }

    /// Validate whether the action's kind is legal in the current phase:
    /// only draws during `Draw`, only plays and the discard during `Play`,
    /// nothing during `RoundEnd` and `GameEnd`.
    pub fn validate_action(&self, action: &GameAction) -> (r: Result<(), ActionError>)
        ensures
            phase_allows(self.phase, *action) ==> r is Ok,
            !phase_allows(self.phase, *action) ==> (r matches Err(e) && e
                == ActionError::FailedAction(
                FailedActionError::InvalidGamePhase { current_phase: self.phase },
            )),
    {
        match (self.phase, action) {
            (GamePhase::Draw, GameAction::DrawDeck(_)) => Ok(()),
            (GamePhase::Draw, GameAction::DrawDiscardPile(_)) => Ok(()),
            (GamePhase::Play, GameAction::FormMeld(_)) => Ok(()),
            (GamePhase::Play, GameAction::FormMelds(_)) => Ok(()),
            (GamePhase::Play, GameAction::LayOff(_)) => Ok(()),
            (GamePhase::Play, GameAction::Discard(_)) => Ok(()),
            _ => Err(
                ActionError::FailedAction(
                    FailedActionError::InvalidGamePhase { current_phase: self.phase },
                ),
            ),
        }
    }

    /// Sets up a new round by:
    /// - Incrementing `current_round`
    /// - Setting players who joined in the last round as active
    /// - Resetting the deck and dealing fresh hands to the active players
    ///   (inactive seats keep empty hands)
    /// - Setting the current player to `starting_player_index`
    ///
    /// Returns an `Err` if the game phase isn't `RoundEnd`, or (fatally) if
    /// the regenerated deck cannot deal every active player.
    pub fn start_new_round(&mut self, cards_to_deal: usize, starting_player_index: usize) -> (r:
        Result<(), GameError>)
        requires
            old(self).deck.spec_config().pack_count <= usize::MAX / 54,
        ensures
            final(self).deck.spec_config() == coerced_config(old(self).deck.spec_config())
                || *final(self) == *old(self),
            r matches Err(e) ==> e == GameError::WrongGamePhase || e == GameError::Internal(
                InternalError::NoCardsInDeckOrDiscardPile,
            ),
            old(self).phase != GamePhase::RoundEnd ==> (r matches Err(e) && e
                == GameError::WrongGamePhase) && *final(self) == *old(self),
            ({
                let gen = generated_seq(coerced_config(old(self).deck.spec_config()));
                let dealt = setup_active_count(
                    old(self).players@,
                    old(self).current_round as int,
                );
                r is Ok ==> {
                    &&& final(self).players@.len() == old(self).players@.len()
                    &&& forall|i: int|
                        0 <= i < final(self).players@.len() ==> {
                            let p = #[trigger] final(self).players@[i];
                            let q = old(self).players@[i];
                            &&& p.id == q.id
                            &&& p.joined_in_round == q.joined_in_round
                            &&& p.active == (q.active || q.joined_in_round
                                == old(self).current_round)
                            &&& p.cards@.len() == (if p.active {
                                cards_to_deal as int
                            } else {
                                0int
                            })
                            &&& p.melds@.len() == 0
                        }
                    &&& final(self).phase == GamePhase::Draw
                    &&& final(self).current_player == starting_player_index
                    &&& final(self).current_round == (if old(self).current_round < usize::MAX {
                        old(self).current_round + 1
                    } else {
                        usize::MAX as int
                    })
                    &&& final(self).deck.spec_config() == coerced_config(
                        old(self).deck.spec_config(),
                    )
                    &&& final(self).deck.spec_discard() == Seq::<Card>::empty()
                    &&& final(self).deck.spec_stock().len() == gen.len() - dealt * cards_to_deal
                    &&& final(self).round_scores == old(self).round_scores
                    &&& final(self).variant_state == old(self).variant_state
                    &&& final(self).total_card_count() == gen.len()
                }
            }),
            old(self).phase == GamePhase::RoundEnd && setup_active_count(
                old(self).players@,
                old(self).current_round as int,
            ) * cards_to_deal <= generated_seq(coerced_config(old(self).deck.spec_config())).len()
                ==> r is Ok,
            old(self).phase == GamePhase::RoundEnd && setup_active_count(
                old(self).players@,
                old(self).current_round as int,
            ) * cards_to_deal > generated_seq(coerced_config(old(self).deck.spec_config())).len()
                ==> (r matches Err(e) && e == GameError::Internal(
                InternalError::NoCardsInDeckOrDiscardPile,
            )),
    {
        if !matches!(self.phase, GamePhase::RoundEnd) {
            return Err(GameError::WrongGamePhase);
        }

        self.deck.reset();
        let ghost gen = generated_seq(coerced_config(old(self).deck.spec_config()));

        let round = self.current_round;
        let n = self.players.len();
        let mut i: usize = 0;
        while i < n
            invariant
                i <= n,
                n == self.players@.len(),
                n == old(self).players@.len(),
                self.phase == GamePhase::RoundEnd,
                self.current_round == old(self).current_round,
                round == old(self).current_round,
                self.current_player == old(self).current_player,
                self.round_scores == old(self).round_scores,
                self.variant_state == old(self).variant_state,
                self.deck.spec_config() == coerced_config(old(self).deck.spec_config()),
                self.deck.spec_discard() == Seq::<Card>::empty(),
                self.deck.spec_stock().len() == gen.len() - setup_active_count(
                    old(self).players@.take(i as int),
                    round as int,
                ) * cards_to_deal,
                gen.len() >= setup_active_count(old(self).players@.take(i as int), round as int)
                    * cards_to_deal,
                gen == generated_seq(coerced_config(old(self).deck.spec_config())),
                old(self).phase == GamePhase::RoundEnd,
                forall|k: int|
                    0 <= k < i ==> {
                        let p = #[trigger] self.players@[k];
                        let q = old(self).players@[k];
                        &&& p.id == q.id
                        &&& p.joined_in_round == q.joined_in_round
                        &&& p.active == (q.active || q.joined_in_round
                            == old(self).current_round)
                        &&& p.cards@.len() == (if p.active {
                            cards_to_deal as int
                        } else {
                            0int
                        })
                        &&& p.melds@.len() == 0
                    },
                forall|k: int| i <= k < n ==> self.players@[k] == old(self).players@[k],
            decreases n - i,
        {
            let ghost cnt = setup_active_count(old(self).players@.take(i as int), round as int);
            let mut p = self.players.remove(i);
            if !p.active && p.joined_in_round == round {
                p.active = true;
            }
            p.melds = Vec::new();
            proof {
                assert(old(self).players@.take(i as int + 1).drop_last() =~= old(
                    self,
                ).players@.take(i as int));
            }
            if p.active {
                proof {
                    lemma_setup_active_bounds(old(self).players@, round as int, i as int + 1);
                    assert(setup_active_count(
                        old(self).players@.take(i as int + 1),
                        round as int,
                    ) == cnt + 1);
                    let total = setup_active_count(old(self).players@, round as int);
                    assert((cnt + 1) * cards_to_deal <= total * cards_to_deal)
                        by (nonlinear_arith)
                        requires
                            cnt + 1 <= total,
                            cards_to_deal >= 0,
                    ;
                    assert((cnt + 1) * cards_to_deal == cnt * cards_to_deal + cards_to_deal)
                        by (nonlinear_arith);
                }
                let drawn = match self.deck.draw(cards_to_deal) {
                    Ok(c) => c,
                    Err(_) => {
                        self.players.insert(i, p);
                        proof {
                            assert(gen.len() < cnt * cards_to_deal + cards_to_deal);
                            assert(setup_active_count(old(self).players@, round as int)
                                * cards_to_deal > gen.len());
                        }
                        return Err(
                            GameError::Internal(InternalError::NoCardsInDeckOrDiscardPile),
                        );
                    },
                };
                p.cards = drawn;
            } else {
                p.cards = Vec::new();
                proof {
                    assert(setup_active_count(
                        old(self).players@.take(i as int + 1),
                        round as int,
                    ) == cnt);
                }
            }
            let ghost pre = self.players@;
            self.players.insert(i, p);
            proof {
                assert(self.players@ =~= pre.insert(i as int, p));
            }
            i = i + 1;
        }

        self.current_player = starting_player_index;
        self.phase = GamePhase::Draw;
        self.current_round = self.current_round.saturating_add(1);

        proof {
            assert(old(self).players@.take(n as int) =~= old(self).players@);
            lemma_active_after_activation(
                old(self).players@,
                self.players@,
                old(self).current_round as int,
            );
            lemma_dealt_players_count(self.players@, cards_to_deal as int);
        }
        Ok(())
    }

    /// Get a reference to the current player.
    ///
    /// Returns an `InternalError` if the `current_player` index is invalid
    /// for some reason.
    pub fn get_current_player(&self) -> (r: Result<&Player, InternalError>)
        ensures
            self.current_player < self.players@.len() ==> (r matches Ok(p) && *p
                == self.players@[self.current_player as int]),
            self.current_player >= self.players@.len() ==> (r matches Err(e) && e
                == (InternalError::InvalidCurrentPlayer { current: self.current_player })),
    {
        if self.current_player < self.players.len() {
            Ok(&self.players[self.current_player])
        } else {
            Err(InternalError::InvalidCurrentPlayer { current: self.current_player })
        }
    }

    /// Get a mutable reference to the current player.
    ///
    /// Returns an `InternalError` if the `current_player` index is invalid
    /// for some reason.
    pub fn get_current_player_mut(&mut self) -> (r: Result<&mut Player, InternalError>)
        ensures
            old(self).current_player < old(self).players@.len() ==> (r matches Ok(p) && *p == old(
                self,
            ).players@[old(self).current_player as int] && final(self).players@ == old(
                self,
            ).players@.update(old(self).current_player as int, *final(p))),
            old(self).current_player >= old(self).players@.len() ==> (r matches Err(e) && e
                == (InternalError::InvalidCurrentPlayer { current: old(self).current_player }))
                && *final(self) == *old(self),
            final(self).phase == old(self).phase,
            final(self).deck == old(self).deck,
            final(self).current_player == old(self).current_player,
            final(self).current_round == old(self).current_round,
            final(self).round_scores == old(self).round_scores,
            final(self).variant_state == old(self).variant_state,
    {
        let cur = self.current_player;
        if cur < self.players.len() {
            let r = &mut self.players[cur];
            Ok(r)
        } else {
            Err(InternalError::InvalidCurrentPlayer { current: self.current_player })
        }
    }

    /// Increment `current_player` to the next active player, wrapping
    /// around and skipping inactive seats.
    ///
    /// Returns an `InternalError` if there are no players or no seat is
    /// active.
    pub fn to_next_player(&mut self) -> (r: Result<(), InternalError>)
        ensures
            final(self).players@ == old(self).players@,
            final(self).phase == old(self).phase,
            final(self).deck == old(self).deck,
            final(self).current_round == old(self).current_round,
            final(self).round_scores == old(self).round_scores,
            final(self).variant_state == old(self).variant_state,
            ({
                let ps = old(self).players@;
                let cur = old(self).current_player as int;
                let steps = steps_to_next_active(ps, cur % (if ps.len() == 0 {
                    1int
                } else {
                    ps.len() as int
                }), 1);
                if ps.len() > 0 && steps <= ps.len() {
                    &&& r is Ok
                    &&& final(self).current_player == ((cur % (ps.len() as int)) + steps) % (
                    ps.len() as int)
                    &&& ps[final(self).current_player as int].active
                } else {
                    &&& r matches Err(e) && e == (InternalError::InvalidCurrentPlayer {
                        current: old(self).current_player,
                    })
                    &&& final(self).current_player == old(self).current_player
                }
            }),
    {
        let n = self.players.len();
        if n == 0 {
            return Err(InternalError::InvalidCurrentPlayer { current: self.current_player });
        }
        let base = self.current_player % n;
        let ghost mut k: int = 1;
        let mut idx = if base + 1 >= n {
            base + 1 - n
        } else {
            base + 1
        };
        proof {
            assert(idx == (base + 1) % (n as int)) by {
                if base + 1 >= n {
                    assert(base + 1 < 2 * n);
                    vstd::arithmetic::div_mod::lemma_fundamental_div_mod_converse(
                        base as int + 1,
                        n as int,
                        1,
                        base as int + 1 - n as int,
                    );
                } else {
                    vstd::arithmetic::div_mod::lemma_fundamental_div_mod_converse(
                        base as int + 1,
                        n as int,
                        0,
                        base as int + 1,
                    );
                }
            }
        }
        let mut count: usize = 0;
        while count < n
            invariant
                0 <= count <= n,
                k == count as int + 1,
                1 <= k <= n + 1,
                n == self.players@.len(),
                n >= 1,
                *self == *old(self),
                base == old(self).current_player as int % (n as int),
                idx < n,
                idx == (base + k) % (n as int),
                steps_to_next_active(self.players@, base as int, 1) == steps_to_next_active(
                    self.players@,
                    base as int,
                    k as int,
                ),
            decreases n - count,
        {
            if self.players[idx].active {
                self.current_player = idx;
                return Ok(());
            }
            count = count + 1;
            proof {
                k = count as int + 1;
            }
            let old_idx = idx;
            idx = if idx + 1 >= n {
                0
            } else {
                idx + 1
            };
            proof {
                assert(idx == (base + k) % (n as int)) by {
                    vstd::arithmetic::div_mod::lemma_add_mod_noop(
                        base as int + (k - 1),
                        1,
                        n as int,
                    );
                    if n == 1 {
                        assert(idx == 0);
                        vstd::arithmetic::div_mod::lemma_fundamental_div_mod_converse(
                            base as int + k,
                            1,
                            base as int + k,
                            0,
                        );
                    } else {
                        assert(1int % (n as int) == 1) by {
                            vstd::arithmetic::div_mod::lemma_fundamental_div_mod_converse(
                                1,
                                n as int,
                                0,
                                1,
                            );
                        }
                        if old_idx + 1 >= n {
                            vstd::arithmetic::div_mod::lemma_fundamental_div_mod_converse(
                                old_idx as int + 1,
                                n as int,
                                1,
                                0,
                            );
                        } else {
                            vstd::arithmetic::div_mod::lemma_fundamental_div_mod_converse(
                                old_idx as int + 1,
                                n as int,
                                0,
                                old_idx as int + 1,
                            );
                        }
                    }
                }
            }
        }
        Err(InternalError::InvalidCurrentPlayer { current: self.current_player })
    }
}

/// After a fresh deal every active player holds exactly the deal size,
/// every inactive seat is empty, and nobody has melds.
proof fn lemma_dealt_players_count(ps: Seq<Player>, deal: int)
    requires
        forall|k: int|
            0 <= k < ps.len() ==> (#[trigger] ps[k]).cards@.len() == (if ps[k].active {
                deal
            } else {
                0int
            }) && ps[k].melds@.len() == 0,
    ensures
        players_card_count(ps) == active_count(ps) * deal,
    decreases ps.len(),
{
    if ps.len() > 0 {
        lemma_dealt_players_count(ps.drop_last(), deal);
        assert(melds_card_count(ps.last().melds@) == 0);
        let a = active_count(ps.drop_last());
        if ps.last().active {
            assert(players_card_count(ps) == a * deal + deal);
            assert(a * deal + deal == (a + 1) * deal) by (nonlinear_arith);
        }
    }
}

} // verus!
