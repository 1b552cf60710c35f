//! The rules for basic Rummy: the verified action handlers and scoring.

use vstd::prelude::*;

use std::collections::HashMap;

use crate::basic::config::{BasicConfig, DrawDiscardPileOverride};
use crate::basic::score::{hand_score, lemma_hand_score_nonneg, BasicScore};
use crate::basic::state::BasicState;
use crate::cards::card::Card;
use crate::cards::meld::{
    chosen_cards, first_failing_meld, indices_distinct, meld_layoff_accepts, meld_new_check,
    meld_selection_check, remove_positions, Meld, MeldError,
};
use crate::game::action::{
    DiscardAction, DrawDeckAction, DrawDiscardPileAction, FormMeldAction, FormMeldsAction,
    GameAction, LayOffAction,
};
use crate::game::error::{ActionError, FailedActionError, GameError, InternalError};
use crate::game::rules::GameRules;
use crate::game::score::RoundScore;
use crate::game::state::{
    lemma_melds_multiset_concat, lemma_melds_multiset_push, lemma_melds_multiset_update,
    lemma_players_count_update, lemma_players_multiset_update, melds_card_count, phase_allows,
    player_card_count, player_card_multiset, players_card_count, players_card_multiset,
    steps_to_next_active, GamePhase, GameState,
};
use vstd::multiset::Multiset;

pub use crate::game::state::{active_count, setup_active_count};
use crate::player::Player;

verus! {

broadcast use vstd::std_specs::hash::group_hash_axioms;

/// The default deal size for a player count, following basic Rummy.
pub open spec fn default_deal_amount(active: int) -> int {
    if active == 2 {
        10
    } else if 3 <= active <= 5 {
        7
    } else if active == 6 {
        6
    } else {
        10
    }
}

/// Whether all player IDs differ.
pub open spec fn player_ids_distinct(players: Seq<Player>) -> bool {
    forall|i: int, j: int|
        0 <= i < j < players.len() ==> (#[trigger] players[i]).id != (#[trigger] players[j]).id
}

/// The rules for basic Rummy.
#[derive(Debug, Clone, Copy)]
pub struct BasicRules {
    pub config: BasicConfig,
}

impl BasicRules {
    /// Initialize the rules.
    pub fn new(config: BasicConfig) -> (r: BasicRules)
        ensures
            r.config == config,
    {
        BasicRules { config }
    }

    /// The deal size the rules call for, given the players and the round
    /// that is ending.
    pub open spec fn spec_deal_amount(self, players: Seq<Player>, round: int) -> int {
        match self.config.deal_amount {
            Option::Some(c) => c as int,
            Option::None => default_deal_amount(setup_active_count(players, round)),
        }
    }

    /// How many cards a deck draw takes.
    pub open spec fn spec_draw_deck_amount(self) -> int {
        match self.config.draw_deck_amount {
            Option::Some(v) => v as int,
            Option::None => 1,
        }
    }

    /// How many cards a discard-pile draw takes, given the pile size and
    /// the amount the player asked for.
    pub open spec fn spec_discard_draw_amount(self, discard_len: int, requested: int) -> int {
        match self.config.draw_discard_pile_amount {
            Option::Some(DrawDiscardPileOverride::PlayerChooses) => requested,
            Option::Some(DrawDiscardPileOverride::WholePile) => discard_len,
            Option::Some(DrawDiscardPileOverride::Constant(c)) => c as int,
            Option::None => 1,
        }
    }

    /// The number of cards to deal at the start of a round.
    pub fn cards_to_deal(&self, state: &GameState<BasicScore, BasicState>) -> (r: usize)
        ensures
            r == self.spec_deal_amount(state.players@, state.current_round as int),
    {
        if let Option::Some(count) = self.config.deal_amount {
            return count;
        }
        let round = state.current_round;
        let n = state.players.len();
        let mut active: usize = 0;
        let mut i: usize = 0;
        while i < n
            invariant
                i <= n,
                n == state.players@.len(),
                active == setup_active_count(state.players@.take(i as int), round as int),
                active <= i,
            decreases n - i,
        {
            proof {
                assert(state.players@.take(i as int + 1).drop_last() =~= state.players@.take(
                    i as int,
                ));
            }
            if state.players[i].active || state.players[i].joined_in_round == round {
                active = active + 1;
            }
            i = i + 1;
        }
        proof {
            assert(state.players@.take(n as int) =~= state.players@);
        }
        if active == 2 {
            10
        } else if active >= 3 && active <= 5 {
            7
        } else if active == 6 {
            6
        } else {
            10
        }
    }

    /// The number of cards to draw from the deck.
    pub fn cards_to_draw_from_deck(&self, _state: &GameState<BasicScore, BasicState>) -> (r: usize)
        ensures
            r == self.spec_draw_deck_amount(),
    {
        if let Option::Some(value) = self.config.draw_deck_amount {
            value
        } else {
            1
        }
    }

    /// The number of cards to draw from the discard pile.
    pub fn cards_to_draw_from_discard_pile(
        &self,
        state: &GameState<BasicScore, BasicState>,
        given_amount: usize,
    ) -> (r: usize)
        ensures
            r == self.spec_discard_draw_amount(
                state.deck.spec_discard().len() as int,
                given_amount as int,
            ),
    {
        if let Option::Some(value) = self.config.draw_discard_pile_amount {
            match value {
                DrawDiscardPileOverride::PlayerChooses => given_amount,
                DrawDiscardPileOverride::WholePile => state.deck.discard_pile().len(),
                DrawDiscardPileOverride::Constant(amount) => amount,
            }
        } else {
            1
        }
    }

    /// Returns the player index who should start in a round: the round
    /// number modulo the number of active players (0 when none is active).
    pub fn starting_player_index(&self, state: &GameState<BasicScore, BasicState>) -> (r: usize)
        ensures
            r == if active_count(state.players@) > 0 {
                state.current_round as int % active_count(state.players@)
            } else {
                0int
            },
    {
        let n = state.players.len();
        let mut active: usize = 0;
        let mut i: usize = 0;
        while i < n
            invariant
                i <= n,
                n == state.players@.len(),
                active == active_count(state.players@.take(i as int)),
                active <= i,
            decreases n - i,
        {
            proof {
                assert(state.players@.take(i as int + 1).drop_last() =~= state.players@.take(
                    i as int,
                ));
            }
            if state.players[i].active {
                active = active + 1;
            }
            i = i + 1;
        }
        proof {
            assert(state.players@.take(n as int) =~= state.players@);
        }
        if active == 0 {
            0
        } else {
            state.current_round % active
        }
    }
}

/// Appending one meld adds its cards to a meld list's total.
proof fn lemma_melds_count_push(melds: Seq<Meld>, m: Meld)
    ensures
        melds_card_count(melds.push(m)) == melds_card_count(melds) + m.spec_cards().len(),
{
    assert(melds.push(m).drop_last() =~= melds);
    assert(melds.push(m).last() == m);
}

/// Replacing one player by one whose cards differ by `gained` minus
/// `lost` shifts the table's combined multiset by the same difference.
proof fn lemma_players_multiset_exchange(
    ps: Seq<Player>,
    i: int,
    p: Player,
    gained: Multiset<Card>,
    lost: Multiset<Card>,
)
    requires
        0 <= i < ps.len(),
        player_card_multiset(p).add(lost) == player_card_multiset(ps[i]).add(gained),
    ensures
        players_card_multiset(ps.update(i, p)).add(lost) == players_card_multiset(ps).add(gained),
{
    broadcast use vstd::multiset::group_multiset_axioms;

    lemma_players_multiset_update(ps, i, p);
    assert forall|c: Card|
        players_card_multiset(ps.update(i, p)).add(lost).count(c) == players_card_multiset(
            ps,
        ).add(gained).count(c) by {
        let a = players_card_multiset(ps.update(i, p));
        let b = players_card_multiset(ps);
        let pp = player_card_multiset(p);
        let qq = player_card_multiset(ps[i]);
        assert(a.add(qq).count(c) == b.add(pp).count(c));
        assert(a.add(qq).count(c) == a.count(c) + qq.count(c));
        assert(b.add(pp).count(c) == b.count(c) + pp.count(c));
        assert(pp.add(lost).count(c) == qq.add(gained).count(c));
        assert(pp.add(lost).count(c) == pp.count(c) + lost.count(c));
        assert(qq.add(gained).count(c) == qq.count(c) + gained.count(c));
        assert(a.add(lost).count(c) == a.count(c) + lost.count(c));
        assert(b.add(gained).count(c) == b.count(c) + gained.count(c));
    }
    assert(players_card_multiset(ps.update(i, p)).add(lost) =~= players_card_multiset(ps).add(
        gained,
    ));
}

/// Replacing two different players whose cards were only exchanged between
/// them keeps the table's combined multiset.
proof fn lemma_players_multiset_exchange2(
    ps: Seq<Player>,
    i: int,
    j: int,
    p: Player,
    t: Player,
)
    requires
        0 <= i < ps.len(),
        0 <= j < ps.len(),
        i != j,
        player_card_multiset(p).add(player_card_multiset(t)) == player_card_multiset(
            ps[i],
        ).add(player_card_multiset(ps[j])),
    ensures
        players_card_multiset(ps.update(i, p).update(j, t)) == players_card_multiset(ps),
{
    broadcast use vstd::multiset::group_multiset_axioms;

    let mid = ps.update(i, p);
    lemma_players_multiset_update(ps, i, p);
    lemma_players_multiset_update(mid, j, t);
    assert(mid[j] == ps[j]);
    assert forall|c: Card|
        players_card_multiset(mid.update(j, t)).count(c) == players_card_multiset(ps).count(
            c,
        ) by {
        let fin = players_card_multiset(mid.update(j, t));
        let m0 = players_card_multiset(mid);
        let b = players_card_multiset(ps);
        let pp = player_card_multiset(p);
        let tt = player_card_multiset(t);
        let qq = player_card_multiset(ps[i]);
        let tq = player_card_multiset(ps[j]);
        assert(fin.add(tq).count(c) == m0.add(tt).count(c));
        assert(fin.add(tq).count(c) == fin.count(c) + tq.count(c));
        assert(m0.add(tt).count(c) == m0.count(c) + tt.count(c));
        assert(m0.add(qq).count(c) == b.add(pp).count(c));
        assert(m0.add(qq).count(c) == m0.count(c) + qq.count(c));
        assert(b.add(pp).count(c) == b.count(c) + pp.count(c));
        assert(pp.add(tt).count(c) == qq.add(tq).count(c));
        assert(pp.add(tt).count(c) == pp.count(c) + tt.count(c));
        assert(qq.add(tq).count(c) == qq.count(c) + tq.count(c));
    }
    assert(players_card_multiset(mid.update(j, t)) =~= players_card_multiset(ps));
}

/// A round's combined multiset, split into its three parts.
proof fn lemma_total_decompose(st: GameState<BasicScore, BasicState>, c: Card)
    ensures
        st.total_card_multiset().count(c) == st.deck.spec_stock().to_multiset().count(c)
            + st.deck.spec_discard().to_multiset().count(c) + players_card_multiset(
            st.players@,
        ).count(c),
{
    broadcast use vstd::multiset::group_multiset_axioms;

    let a = st.deck.spec_stock().to_multiset();
    let b = st.deck.spec_discard().to_multiset();
    let d = players_card_multiset(st.players@);
    assert(a.add(b).count(c) == a.count(c) + b.count(c));
    assert(a.add(b).add(d).count(c) == a.add(b).count(c) + d.count(c));
}

/// Cards that left the deck and arrived in the players' hands (or the
/// other way round, with `moved` empty on one side) leave the round's
/// combined multiset unchanged.
proof fn lemma_total_balance(
    pre: GameState<BasicScore, BasicState>,
    post: GameState<BasicScore, BasicState>,
    moved: Multiset<Card>,
)
    requires
        post.deck.spec_stock().to_multiset().add(post.deck.spec_discard().to_multiset()).add(
            moved,
        ) == pre.deck.spec_stock().to_multiset().add(pre.deck.spec_discard().to_multiset()),
        players_card_multiset(post.players@) == players_card_multiset(pre.players@).add(moved),
    ensures
        post.total_card_multiset() == pre.total_card_multiset(),
{
    broadcast use vstd::multiset::group_multiset_axioms;

    assert forall|c: Card|
        post.total_card_multiset().count(c) == pre.total_card_multiset().count(c) by {
        lemma_total_decompose(post, c);
        lemma_total_decompose(pre, c);
        let sp = post.deck.spec_stock().to_multiset();
        let dp = post.deck.spec_discard().to_multiset();
        let s0 = pre.deck.spec_stock().to_multiset();
        let d0 = pre.deck.spec_discard().to_multiset();
        assert(sp.add(dp).add(moved).count(c) == s0.add(d0).count(c));
        assert(sp.add(dp).count(c) == sp.count(c) + dp.count(c));
        assert(sp.add(dp).add(moved).count(c) == sp.add(dp).count(c) + moved.count(c));
        assert(s0.add(d0).count(c) == s0.count(c) + d0.count(c));
        assert(players_card_multiset(pre.players@).add(moved).count(c)
            == players_card_multiset(pre.players@).count(c) + moved.count(c));
    }
    assert(post.total_card_multiset() =~= pre.total_card_multiset());
}

/// The mirror image: cards that left the players' hands for the deck.
proof fn lemma_total_balance_to_deck(
    pre: GameState<BasicScore, BasicState>,
    post: GameState<BasicScore, BasicState>,
    moved: Multiset<Card>,
)
    requires
        post.deck.spec_stock().to_multiset().add(post.deck.spec_discard().to_multiset())
            == pre.deck.spec_stock().to_multiset().add(
            pre.deck.spec_discard().to_multiset(),
        ).add(moved),
        players_card_multiset(post.players@).add(moved) == players_card_multiset(pre.players@),
    ensures
        post.total_card_multiset() == pre.total_card_multiset(),
{
    broadcast use vstd::multiset::group_multiset_axioms;

    assert forall|c: Card|
        post.total_card_multiset().count(c) == pre.total_card_multiset().count(c) by {
        lemma_total_decompose(post, c);
        lemma_total_decompose(pre, c);
        let sp = post.deck.spec_stock().to_multiset();
        let dp = post.deck.spec_discard().to_multiset();
        let s0 = pre.deck.spec_stock().to_multiset();
        let d0 = pre.deck.spec_discard().to_multiset();
        assert(sp.add(dp).count(c) == s0.add(d0).add(moved).count(c));
        assert(sp.add(dp).count(c) == sp.count(c) + dp.count(c));
        assert(s0.add(d0).add(moved).count(c) == s0.add(d0).count(c) + moved.count(c));
        assert(s0.add(d0).count(c) == s0.count(c) + d0.count(c));
        assert(players_card_multiset(post.players@).add(moved).count(c)
            == players_card_multiset(post.players@).count(c) + moved.count(c));
    }
    assert(post.total_card_multiset() =~= pre.total_card_multiset());
}

impl BasicRules {
    /// Everything `handle_draw_deck` guarantees, as a relation between
    /// the state before (`pre`) and after (`post`) the call and its result.
    pub open spec fn draw_deck_post(
        self,
        pre: GameState<BasicScore, BasicState>,
        action: DrawDeckAction,
        post: GameState<BasicScore, BasicState>,
        r: Result<(), ActionError>,
    ) -> bool {
        &&& (post.deck.spec_config() == pre.deck.spec_config())
        &&& (r is Err ==> post == pre)
        &&& (post.total_card_count() == pre.total_card_count())
        &&& (post.total_card_multiset() == pre.total_card_multiset())
        &&& (({
                let cur = pre.current_player as int;
                let k = self.spec_draw_deck_amount();
                let stock = pre.deck.spec_stock();
                let disc = pre.deck.spec_discard();
                if cur >= pre.players@.len() {
                    r matches Err(e) && e == ActionError::Internal(
                        InternalError::InvalidCurrentPlayer {
                            current: pre.current_player,
                        },
                    )
                } else if k > stock.len() + disc.len() {
                    r matches Err(e) && e == ActionError::Internal(
                        InternalError::NoCardsInDeckOrDiscardPile,
                    )
                } else {
                    let drawn = if k <= stock.len() {
                        stock.skip(stock.len() - k)
                    } else {
                        (stock + disc).reverse().skip(stock.len() + disc.len() - k)
                    };
                    &&& r is Ok
                    &&& post.players@.len() == pre.players@.len()
                    &&& ({
                        let p = post.players@[cur];
                        let q = pre.players@[cur];
                        p.id == q.id && p.melds@ == q.melds@ && p.active == q.active
                            && p.joined_in_round == q.joined_in_round && p.cards@ == q.cards@
                            + drawn
                    })
                    &&& forall|j: int|
                        0 <= j < pre.players@.len() && j != cur ==> post.players@[j]
                            == pre.players@[j]
                    &&& (k <= stock.len() ==> post.deck.spec_stock() == stock.take(
                        stock.len() - k,
                    ) && post.deck.spec_discard() == disc)
                    &&& (k > stock.len() ==> post.deck.spec_stock() == (stock
                        + disc).reverse().take(stock.len() + disc.len() - k)
                        && post.deck.spec_discard() == Seq::<Card>::empty())
                    &&& post.phase == GamePhase::Play
                    &&& post.current_player == pre.current_player
                    &&& post.current_round == pre.current_round
                    &&& post.round_scores == pre.round_scores
                    &&& post.variant_state == pre.variant_state
                }
            }))
    }

    /// Everything `handle_draw_discard_pile` guarantees, as a relation between
    /// the state before (`pre`) and after (`post`) the call and its result.
    pub open spec fn draw_discard_pile_post(
        self,
        pre: GameState<BasicScore, BasicState>,
        action: DrawDiscardPileAction,
        post: GameState<BasicScore, BasicState>,
        r: Result<(), ActionError>,
    ) -> bool {
        &&& (post.deck.spec_config() == pre.deck.spec_config())
        &&& (r is Err ==> post == pre)
        &&& (post.total_card_count() == pre.total_card_count())
        &&& (post.total_card_multiset() == pre.total_card_multiset())
        &&& (({
                let cur = pre.current_player as int;
                let disc = pre.deck.spec_discard();
                let requested = match action.count {
                    Option::Some(v) => v as int,
                    Option::None => 1int,
                };
                let k = self.spec_discard_draw_amount(disc.len() as int, requested);
                if cur >= pre.players@.len() {
                    r matches Err(e) && e == ActionError::Internal(
                        InternalError::InvalidCurrentPlayer {
                            current: pre.current_player,
                        },
                    )
                } else if disc.len() == 0 || k > disc.len() || k < 0 {
                    r matches Err(e) && e == ActionError::FailedAction(
                        FailedActionError::DiscardPileTooSmall,
                    )
                } else {
                    &&& r is Ok
                    &&& post.players@.len() == pre.players@.len()
                    &&& ({
                        let p = post.players@[cur];
                        let q = pre.players@[cur];
                        p.id == q.id && p.melds@ == q.melds@ && p.active == q.active
                            && p.joined_in_round == q.joined_in_round && p.cards@ == q.cards@
                            + disc.skip(disc.len() - k)
                    })
                    &&& forall|j: int|
                        0 <= j < pre.players@.len() && j != cur ==> post.players@[j]
                            == pre.players@[j]
                    &&& post.deck.spec_discard() == disc.take(disc.len() - k)
                    &&& post.deck.spec_stock() == pre.deck.spec_stock()
                    &&& post.phase == GamePhase::Play
                    &&& post.current_player == pre.current_player
                    &&& post.current_round == pre.current_round
                    &&& post.round_scores == pre.round_scores
                    &&& post.variant_state == pre.variant_state
                }
            }))
    }

    /// Everything `handle_form_meld` guarantees, as a relation between
    /// the state before (`pre`) and after (`post`) the call and its result.
    pub open spec fn form_meld_post(
        self,
        pre: GameState<BasicScore, BasicState>,
        action: FormMeldAction,
        post: GameState<BasicScore, BasicState>,
        r: Result<(), ActionError>,
    ) -> bool {
        &&& (post.deck.spec_config() == pre.deck.spec_config())
        &&& (r is Err ==> post == pre)
        &&& (post.total_card_count() == pre.total_card_count())
        &&& (post.total_card_multiset() == pre.total_card_multiset())
        &&& (({
                let cur = pre.current_player as int;
                if cur >= pre.players@.len() {
                    r matches Err(e) && e == ActionError::Internal(
                        InternalError::InvalidCurrentPlayer {
                            current: pre.current_player,
                        },
                    )
                } else {
                    let q = pre.players@[cur];
                    match meld_new_check(q.cards@, action.card_indices@) {
                        Err(e) => r matches Err(e2) && e2 == ActionError::FailedAction(
                            FailedActionError::FailedMeld(e),
                        ),
                        Ok(_) => {
                            &&& r is Ok
                            &&& post.players@.len() == pre.players@.len()
                            &&& ({
                                let p = post.players@[cur];
                                &&& p.id == q.id
                                &&& p.active == q.active
                                &&& p.joined_in_round == q.joined_in_round
                                &&& p.cards@ == remove_positions(q.cards@, action.card_indices@)
                                &&& p.melds@.len() == q.melds@.len() + 1
                                &&& forall|m: int|
                                    0 <= m < q.melds@.len() ==> p.melds@[m] == q.melds@[m]
                                &&& p.melds@.last().formed_valid()
                                &&& p.melds@.last().wf()
                                &&& p.melds@.last().spec_cards().to_multiset() == chosen_cards(
                                    q.cards@,
                                    action.card_indices@,
                                ).to_multiset()
                                &&& p.melds@.last().spec_cards().len()
                                    == action.card_indices@.len()
                                &&& p.cards@.len() + action.card_indices@.len() == q.cards@.len()
                            })
                            &&& forall|j: int|
                                0 <= j < pre.players@.len() && j != cur ==> post.players@[j] == pre.players@[j]
                            &&& post.deck == pre.deck
                            &&& post.phase == (if post.players@[cur].cards@.len()
                                == 0 {
                                GamePhase::RoundEnd
                            } else {
                                pre.phase
                            })
                            &&& post.current_player == pre.current_player
                            &&& post.current_round == pre.current_round
                            &&& post.round_scores == pre.round_scores
                            &&& post.variant_state == pre.variant_state
                        },
                    }
                }
            }))
    }

    /// Everything `handle_form_melds` guarantees, as a relation between
    /// the state before (`pre`) and after (`post`) the call and its result.
    pub open spec fn form_melds_post(
        self,
        pre: GameState<BasicScore, BasicState>,
        action: FormMeldsAction,
        post: GameState<BasicScore, BasicState>,
        r: Result<(), ActionError>,
    ) -> bool {
        &&& (post.deck.spec_config() == pre.deck.spec_config())
        &&& (r is Err ==> post == pre)
        &&& (post.total_card_count() == pre.total_card_count())
        &&& (post.total_card_multiset() == pre.total_card_multiset())
        &&& (({
                let cur = pre.current_player as int;
                if cur >= pre.players@.len() {
                    r matches Err(e) && e == ActionError::Internal(
                        InternalError::InvalidCurrentPlayer {
                            current: pre.current_player,
                        },
                    )
                } else {
                    let q = pre.players@[cur];
                    let melds = action.melds.deep_view();
                    let ff = first_failing_meld(q.cards@, melds, 0);
                    &&& (indices_distinct(melds.flatten()) && ff == melds.len() ==> r is Ok)
                    &&& if r is Ok {
                        &&& post.players@.len() == pre.players@.len()
                        &&& ({
                            let p = post.players@[cur];
                            &&& p.id == q.id
                            &&& p.active == q.active
                            &&& p.joined_in_round == q.joined_in_round
                            &&& p.cards@ == remove_positions(q.cards@, melds.flatten())
                            &&& p.melds@.len() == q.melds@.len() + melds.len()
                            &&& forall|m: int|
                                0 <= m < q.melds@.len() ==> p.melds@[m] == q.melds@[m]
                            &&& forall|m: int|
                                0 <= m < melds.len() ==> {
                                    let formed = #[trigger] p.melds@[q.melds@.len() + m];
                                    &&& formed.formed_valid()
                                    &&& formed.wf()
                                    &&& formed.spec_cards().to_multiset() == chosen_cards(
                                        q.cards@,
                                        melds[m],
                                    ).to_multiset()
                                    &&& formed.spec_cards().len() == melds[m].len()
                                }
                            &&& p.cards@.len() + melds.flatten().len() == q.cards@.len()
                        })
                        &&& forall|j: int|
                            0 <= j < pre.players@.len() && j != cur ==> post.players@[j] == pre.players@[j]
                        &&& post.deck == pre.deck
                        &&& post.phase == (if post.players@[cur].cards@.len() == 0 {
                            GamePhase::RoundEnd
                        } else {
                            pre.phase
                        })
                        &&& post.current_player == pre.current_player
                        &&& post.current_round == pre.current_round
                        &&& post.round_scores == pre.round_scores
                        &&& post.variant_state == pre.variant_state
                    } else {
                        r matches Err(e) && e matches ActionError::FailedAction(
                            FailedActionError::FailedMeld(me),
                        ) && (if !indices_distinct(melds.flatten()) {
                            me matches MeldError::FailedMultipleMelds { meld_index, err }
                                && meld_index == 0 && *err == MeldError::InvalidCardIndex
                        } else {
                            me matches MeldError::FailedMultipleMelds { meld_index, err }
                                && meld_index == ff && ff < melds.len() && Err::<
                                (),
                                MeldError,
                            >(*err) == meld_selection_check(q.cards@, melds[ff])
                        })
                    }
                }
            }))
    }

    /// Everything `handle_discard` guarantees, as a relation between
    /// the state before (`pre`) and after (`post`) the call and its result.
    pub open spec fn discard_post(
        self,
        pre: GameState<BasicScore, BasicState>,
        action: DiscardAction,
        post: GameState<BasicScore, BasicState>,
        r: Result<(), ActionError>,
    ) -> bool {
        &&& (post.deck.spec_config() == pre.deck.spec_config())
        &&& ((r matches Err(e) && e matches ActionError::FailedAction(_)) ==> post == pre)
        &&& (post.total_card_count() == pre.total_card_count())
        &&& (post.total_card_multiset() == pre.total_card_multiset())
        &&& (({
                let cur = pre.current_player as int;
                let ci = action.card_index as int;
                if cur >= pre.players@.len() {
                    (r matches Err(e) && e == ActionError::Internal(
                        InternalError::InvalidCurrentPlayer {
                            current: pre.current_player,
                        },
                    )) && post == pre
                } else if ci >= pre.players@[cur].cards@.len() {
                    (r matches Err(e) && e == ActionError::FailedAction(
                        FailedActionError::InvalidCardIndex,
                    )) && post == pre
                } else {
                    let q = pre.players@[cur];
                    let card = q.cards@[ci];
                    &&& post.players@.len() == pre.players@.len()
                    &&& ({
                        let p = post.players@[cur];
                        p.id == q.id && p.melds@ == q.melds@ && p.active == q.active
                            && p.joined_in_round == q.joined_in_round && p.cards@ == q.cards@.remove(
                            ci,
                        )
                    })
                    &&& forall|j: int|
                        0 <= j < pre.players@.len() && j != cur ==> post.players@[j]
                            == pre.players@[j]
                    &&& post.deck.spec_discard() == pre.deck.spec_discard().push(
                        card,
                    )
                    &&& post.deck.spec_stock() == pre.deck.spec_stock()
                    &&& post.current_round == pre.current_round
                    &&& post.round_scores == pre.round_scores
                    &&& post.variant_state == pre.variant_state
                    &&& (q.cards@.len() == 1 ==> r is Ok && post.phase
                        == GamePhase::RoundEnd && post.current_player == pre.current_player)
                    &&& (q.cards@.len() > 1 ==> post.phase == GamePhase::Draw && {
                        let ps = post.players@;
                        let base = cur % (ps.len() as int);
                        let steps = steps_to_next_active(ps, base, 1);
                        if steps <= ps.len() {
                            &&& r is Ok
                            &&& post.current_player == (base + steps) % (ps.len() as int)
                            &&& ps[post.current_player as int].active
                        } else {
                            r matches Err(e) && e == ActionError::Internal(
                                InternalError::InvalidCurrentPlayer {
                                    current: pre.current_player,
                                },
                            ) && post.current_player == pre.current_player
                        }
                    })
                }
            }))
    }

    /// Everything `handle_lay_off` guarantees, as a relation between
    /// the state before (`pre`) and after (`post`) the call and its result.
    pub open spec fn lay_off_post(
        self,
        pre: GameState<BasicScore, BasicState>,
        action: LayOffAction,
        post: GameState<BasicScore, BasicState>,
        r: Result<(), ActionError>,
    ) -> bool {
        &&& (post.deck.spec_config() == pre.deck.spec_config())
        &&& (r is Err ==> post == pre)
        &&& (post.total_card_count() == pre.total_card_count())
        &&& (post.total_card_multiset() == pre.total_card_multiset())
        &&& (({
                let cur = pre.current_player as int;
                let tp = action.target_player_index as int;
                let mi = action.target_meld_index as int;
                let ci = action.card_index as int;
                let ps = pre.players@;
                if tp >= ps.len() {
                    r matches Err(e) && e == ActionError::FailedAction(
                        FailedActionError::InvalidPlayerIndex,
                    )
                } else if cur >= ps.len() {
                    r matches Err(e) && e == ActionError::Internal(
                        InternalError::InvalidCurrentPlayer {
                            current: pre.current_player,
                        },
                    )
                } else if mi >= ps[tp].melds@.len() {
                    r matches Err(e) && e == ActionError::FailedAction(
                        FailedActionError::InvalidMeldIndex,
                    )
                } else {
                    let meld0 = ps[tp].melds@[mi];
                    let hand0 = ps[cur].cards@;
                    if meld0 matches Meld::Run(rn) && rn.spec_cards().len() == 0 {
                        r matches Err(e) && e == ActionError::FailedAction(
                            FailedActionError::FailedMeld(MeldError::InvalidLayoff),
                        )
                    } else if ci >= hand0.len() {
                        r matches Err(e) && e == ActionError::FailedAction(
                            FailedActionError::FailedMeld(MeldError::InvalidCardIndex),
                        )
                    } else if !meld_layoff_accepts(meld0, hand0[ci]) {
                        r matches Err(e) && e == ActionError::FailedAction(
                            FailedActionError::FailedMeld(MeldError::InvalidLayoff),
                        )
                    } else {
                        &&& r is Ok
                        &&& post.players@.len() == ps.len()
                        &&& forall|j: int|
                            0 <= j < ps.len() && j != cur && j != tp ==> post.players@[j]
                                == ps[j]
                        &&& ({
                            let pc = post.players@[cur];
                            &&& pc.id == ps[cur].id
                            &&& pc.active == ps[cur].active
                            &&& pc.joined_in_round == ps[cur].joined_in_round
                            &&& (cur != tp ==> pc.melds@ == ps[cur].melds@)
                        })
                        &&& ({
                            let pt = post.players@[tp];
                            &&& pt.id == ps[tp].id
                            &&& pt.active == ps[tp].active
                            &&& pt.joined_in_round == ps[tp].joined_in_round
                            &&& (cur != tp ==> pt.cards@ == ps[tp].cards@)
                            &&& pt.melds@.len() == ps[tp].melds@.len()
                            &&& forall|m: int|
                                0 <= m < ps[tp].melds@.len() && m != mi ==> pt.melds@[m]
                                    == ps[tp].melds@[m]
                        })
                        &&& ({
                            let hand1 = post.players@[cur].cards@;
                            let meld1 = post.players@[tp].melds@[mi];
                            &&& hand1.to_multiset().add(meld1.spec_cards().to_multiset())
                                == hand0.to_multiset().add(meld0.spec_cards().to_multiset())
                            &&& hand1.len() + meld1.spec_cards().len() == hand0.len()
                                + meld0.spec_cards().len()
                            &&& (meld1 matches Meld::SetMeld(_)) == (meld0 matches Meld::SetMeld(
                                _,
                            ))
                        })
                        &&& post.deck == pre.deck
                        &&& post.phase == (if post.players@[cur].cards@.len() == 0 {
                            GamePhase::RoundEnd
                        } else {
                            pre.phase
                        })
                        &&& post.current_player == pre.current_player
                        &&& post.current_round == pre.current_round
                        &&& post.round_scores == pre.round_scores
                        &&& post.variant_state == pre.variant_state
                    }
                }
            }))
    }

    /// Draws the configured number of cards (1 by default) from the stock
    /// into the current player's hand, turning the discard pile over into
    /// the stock first if the stock alone is too small, then moves to the
    /// `Play` phase.
    pub fn handle_draw_deck(
        &self,
        state: &mut GameState<BasicScore, BasicState>,
        _action: DrawDeckAction,
    ) -> (r: Result<(), ActionError>)
        ensures
            self.draw_deck_post(*old(state), _action, *final(state), r),
    {
        let cur = state.current_player;
        if cur >= state.players.len() {
            return Err(ActionError::Internal(InternalError::InvalidCurrentPlayer { current: cur }));
        }
        let k = self.cards_to_draw_from_deck(state);
        let stock_len = state.deck.stock().len();
        let discard_len = state.deck.discard_pile().len();
        if k > stock_len && k - stock_len > discard_len {
            return Err(ActionError::Internal(InternalError::NoCardsInDeckOrDiscardPile));
        }
        let mut drawn = match state.deck.draw(k) {
            Ok(c) => c,
            Err(_) => {
                proof {
                    assert(false);
                }
                return Err(ActionError::Internal(InternalError::NoCardsInDeckOrDiscardPile));
            },
        };
        let ghost drawn_len = drawn@.len();
        let ghost drawn_seq = drawn@;
        let mut p = state.players.remove(cur);
        let ghost q = p;
        p.cards.append(&mut drawn);
        let ghost pre = state.players@;
        state.players.insert(cur, p);
        state.phase = GamePhase::Play;
        proof {
            broadcast use vstd::multiset::group_multiset_axioms;
            broadcast use vstd::seq_lib::group_to_multiset_ensures;

            assert(state.players@ =~= old(state).players@.update(cur as int, p));
            lemma_players_count_update(old(state).players@, cur as int, p);
            assert(player_card_count(p) == player_card_count(q) + drawn_len);

            let stock0 = old(state).deck.spec_stock();
            let disc0 = old(state).deck.spec_discard();
            vstd::seq_lib::lemma_multiset_commutative(q.cards@, drawn_seq);
            assert(player_card_multiset(p).add(Multiset::<Card>::empty())
                =~= player_card_multiset(q).add(drawn_seq.to_multiset()));
            lemma_players_multiset_exchange(
                old(state).players@,
                cur as int,
                p,
                drawn_seq.to_multiset(),
                Multiset::empty(),
            );
            let dms = drawn_seq.to_multiset();
            let pcm1 = players_card_multiset(state.players@);
            let pcm0 = players_card_multiset(old(state).players@);
            assert forall|c: Card| pcm1.count(c) == pcm0.add(dms).count(c) by {
                assert(pcm1.add(Multiset::<Card>::empty()).count(c) == pcm1.count(c)
                    + Multiset::<Card>::empty().count(c));
                assert(Multiset::<Card>::empty().count(c) == 0);
                assert(pcm1.add(Multiset::<Card>::empty()).count(c) == pcm0.add(
                    dms,
                ).count(c));
            }
            assert(pcm1 =~= pcm0.add(dms));
            let sp = state.deck.spec_stock().to_multiset();
            let dp = state.deck.spec_discard().to_multiset();
            if k <= stock0.len() {
                let m = stock0.len() - k as int;
                assert(stock0 =~= stock0.take(m) + stock0.skip(m));
                vstd::seq_lib::lemma_multiset_commutative(stock0.take(m), stock0.skip(m));
                assert forall|c: Card|
                    sp.add(dp).add(dms).count(c) == stock0.to_multiset().add(
                        disc0.to_multiset(),
                    ).count(c) by {
                    assert(stock0.to_multiset().count(c) == stock0.take(m).to_multiset().add(
                        stock0.skip(m).to_multiset(),
                    ).count(c));
                    assert(stock0.take(m).to_multiset().add(stock0.skip(m).to_multiset()).count(c)
                        == stock0.take(m).to_multiset().count(c) + stock0.skip(
                        m,
                    ).to_multiset().count(c));
                    assert(sp.add(dp).count(c) == sp.count(c) + dp.count(c));
                    assert(sp.add(dp).add(dms).count(c) == sp.add(dp).count(c) + dms.count(c));
                    assert(stock0.to_multiset().add(disc0.to_multiset()).count(c)
                        == stock0.to_multiset().count(c) + disc0.to_multiset().count(c));
                }
            } else {
                let combined = (stock0 + disc0).reverse();
                (stock0 + disc0).lemma_reverse_to_multiset();
                vstd::seq_lib::lemma_multiset_commutative(stock0, disc0);
                let m2 = combined.len() - k as int;
                assert(combined =~= combined.take(m2) + combined.skip(m2));
                vstd::seq_lib::lemma_multiset_commutative(combined.take(m2), combined.skip(m2));
                assert forall|c: Card|
                    sp.add(dp).add(dms).count(c) == stock0.to_multiset().add(
                        disc0.to_multiset(),
                    ).count(c) by {
                    assert(combined.to_multiset().count(c) == combined.take(
                        m2,
                    ).to_multiset().add(combined.skip(m2).to_multiset()).count(c));
                    assert(combined.take(m2).to_multiset().add(
                        combined.skip(m2).to_multiset(),
                    ).count(c) == combined.take(m2).to_multiset().count(c) + combined.skip(
                        m2,
                    ).to_multiset().count(c));
                    assert((stock0 + disc0).to_multiset().count(c) == stock0.to_multiset().add(
                        disc0.to_multiset(),
                    ).count(c));
                    assert(stock0.to_multiset().add(disc0.to_multiset()).count(c)
                        == stock0.to_multiset().count(c) + disc0.to_multiset().count(c));
                    assert(sp.add(dp).count(c) == sp.count(c) + dp.count(c));
                    assert(sp.add(dp).add(dms).count(c) == sp.add(dp).count(c) + dms.count(c));
                    assert(dp.count(c) == 0);
                }
            }
            assert(sp.add(dp).add(dms) =~= old(state).deck.spec_stock().to_multiset().add(
                old(state).deck.spec_discard().to_multiset(),
            ));
            lemma_total_balance(*old(state), *state, dms);
        }
        Ok(())
    }

    /// Draws from the discard pile into the current player's hand: the
    /// configured constant, the whole pile, or the amount the player chose,
    /// depending on the override (1 by default); then moves to the `Play`
    /// phase.
    pub fn handle_draw_discard_pile(
        &self,
        state: &mut GameState<BasicScore, BasicState>,
        action: DrawDiscardPileAction,
    ) -> (r: Result<(), ActionError>)
        ensures
            self.draw_discard_pile_post(*old(state), action, *final(state), r),
    {
        let cur = state.current_player;
        if cur >= state.players.len() {
            return Err(ActionError::Internal(InternalError::InvalidCurrentPlayer { current: cur }));
        }
        let requested = match action.count {
            Option::Some(v) => v as usize,
            Option::None => 1,
        };
        let draw_amount = self.cards_to_draw_from_discard_pile(state, requested);

        let mut drawn = match state.deck.draw_discard_pile(draw_amount) {
            Ok(c) => c,
            Err(_) => {
                return Err(ActionError::FailedAction(FailedActionError::DiscardPileTooSmall));
            },
        };
        let ghost drawn_len = drawn@.len();
        let ghost drawn_seq = drawn@;
        let mut p = state.players.remove(cur);
        let ghost q = p;
        p.cards.append(&mut drawn);
        state.players.insert(cur, p);
        state.phase = GamePhase::Play;
        proof {
            broadcast use vstd::multiset::group_multiset_axioms;
            broadcast use vstd::seq_lib::group_to_multiset_ensures;

            assert(state.players@ =~= old(state).players@.update(cur as int, p));
            lemma_players_count_update(old(state).players@, cur as int, p);
            assert(player_card_count(p) == player_card_count(q) + drawn_len);

            let disc0 = old(state).deck.spec_discard();
            vstd::seq_lib::lemma_multiset_commutative(q.cards@, drawn_seq);
            assert(player_card_multiset(p).add(Multiset::<Card>::empty())
                =~= player_card_multiset(q).add(drawn_seq.to_multiset()));
            lemma_players_multiset_exchange(
                old(state).players@,
                cur as int,
                p,
                drawn_seq.to_multiset(),
                Multiset::empty(),
            );
            let m2 = disc0.len() - drawn_len;
            assert(disc0 =~= disc0.take(m2) + disc0.skip(m2));
            vstd::seq_lib::lemma_multiset_commutative(disc0.take(m2), disc0.skip(m2));
            let dms = drawn_seq.to_multiset();
            let pcm1 = players_card_multiset(state.players@);
            let pcm0 = players_card_multiset(old(state).players@);
            assert forall|c: Card| pcm1.count(c) == pcm0.add(dms).count(c) by {
                assert(pcm1.add(Multiset::<Card>::empty()).count(c) == pcm1.count(c)
                    + Multiset::<Card>::empty().count(c));
                assert(Multiset::<Card>::empty().count(c) == 0);
                assert(pcm1.add(Multiset::<Card>::empty()).count(c) == pcm0.add(dms).count(c));
            }
            assert(pcm1 =~= pcm0.add(dms));
            let sp = state.deck.spec_stock().to_multiset();
            let dp = state.deck.spec_discard().to_multiset();
            assert forall|c: Card|
                sp.add(dp).add(dms).count(c) == old(state).deck.spec_stock().to_multiset().add(
                    old(state).deck.spec_discard().to_multiset(),
                ).count(c) by {
                assert(disc0.to_multiset().count(c) == disc0.take(m2).to_multiset().add(
                    disc0.skip(m2).to_multiset(),
                ).count(c));
                assert(disc0.take(m2).to_multiset().add(disc0.skip(m2).to_multiset()).count(c)
                    == disc0.take(m2).to_multiset().count(c) + disc0.skip(
                    m2,
                ).to_multiset().count(c));
                assert(sp.add(dp).count(c) == sp.count(c) + dp.count(c));
                assert(sp.add(dp).add(dms).count(c) == sp.add(dp).count(c) + dms.count(c));
                assert(old(state).deck.spec_stock().to_multiset().add(
                    old(state).deck.spec_discard().to_multiset(),
                ).count(c) == old(state).deck.spec_stock().to_multiset().count(c) + old(
                    state,
                ).deck.spec_discard().to_multiset().count(c));
            }
            assert(sp.add(dp).add(dms) =~= old(state).deck.spec_stock().to_multiset().add(
                old(state).deck.spec_discard().to_multiset(),
            ));
            lemma_total_balance(*old(state), *state, dms);
        }
        Ok(())
    }

    /// Forms one meld out of the current player's chosen hand cards and
    /// places it in front of them; an emptied hand ends the round.
    pub fn handle_form_meld(
        &self,
        state: &mut GameState<BasicScore, BasicState>,
        action: FormMeldAction,
    ) -> (r: Result<(), ActionError>)
        ensures
            self.form_meld_post(*old(state), action, *final(state), r),
    {
        let cur = state.current_player;
        if cur >= state.players.len() {
            return Err(ActionError::Internal(InternalError::InvalidCurrentPlayer { current: cur }));
        }
        let mut hand_copy = state.players[cur].cards.clone();
        assert(hand_copy@ == state.players@[cur as int].cards@);
        let meld = match Meld::new(&mut hand_copy, &action.card_indices) {
            Ok(m) => m,
            Err(e) => {
                return Err(ActionError::FailedAction(FailedActionError::FailedMeld(e)));
            },
        };
        let mut p = state.players.remove(cur);
        let ghost q = p;
        p.cards = hand_copy;
        p.melds.push(meld);
        let went_out = p.cards.len() == 0;
        state.players.insert(cur, p);
        if went_out {
            state.phase = GamePhase::RoundEnd;
        }
        proof {
            broadcast use vstd::multiset::group_multiset_axioms;

            assert(state.players@ =~= old(state).players@.update(cur as int, p));
            lemma_players_count_update(old(state).players@, cur as int, p);
            lemma_melds_count_push(q.melds@, p.melds@.last());
            assert(player_card_count(p) == player_card_count(q));

            lemma_melds_multiset_push(q.melds@, p.melds@.last());
            assert(player_card_multiset(p).add(Multiset::<Card>::empty())
                =~= player_card_multiset(q).add(Multiset::<Card>::empty())) by {
                assert(p.cards@.to_multiset().add(p.melds@.last().spec_cards().to_multiset())
                    == q.cards@.to_multiset());
            }
            lemma_players_multiset_exchange(
                old(state).players@,
                cur as int,
                p,
                Multiset::empty(),
                Multiset::empty(),
            );
            let mv = Multiset::<Card>::empty();
            let pcm1 = players_card_multiset(state.players@);
            let pcm0 = players_card_multiset(old(state).players@);
            assert forall|c: Card| pcm1.count(c) == pcm0.add(mv).count(c) by {
                assert(pcm1.add(mv).count(c) == pcm1.count(c) + mv.count(c));
                assert(mv.count(c) == 0);
                assert(pcm1.add(mv).count(c) == pcm0.add(mv).count(c));
            }
            assert(pcm1 =~= pcm0.add(mv));
            let sp = state.deck.spec_stock().to_multiset();
            let dp = state.deck.spec_discard().to_multiset();
            assert forall|c: Card|
                sp.add(dp).add(mv).count(c) == old(state).deck.spec_stock().to_multiset().add(
                    old(state).deck.spec_discard().to_multiset(),
                ).count(c) by {
                assert(sp.add(dp).count(c) == sp.count(c) + dp.count(c));
                assert(sp.add(dp).add(mv).count(c) == sp.add(dp).count(c) + mv.count(c));
                assert(mv.count(c) == 0);
                assert(old(state).deck.spec_stock().to_multiset().add(
                    old(state).deck.spec_discard().to_multiset(),
                ).count(c) == old(state).deck.spec_stock().to_multiset().count(c) + old(
                    state,
                ).deck.spec_discard().to_multiset().count(c));
            }
            assert(sp.add(dp).add(mv) =~= old(state).deck.spec_stock().to_multiset().add(
                old(state).deck.spec_discard().to_multiset(),
            ));
            lemma_total_balance(*old(state), *state, mv);
        }
        Ok(())
    }

    /// Forms several melds at once, atomically: on the first failure the
    /// hand is left untouched; an emptied hand ends the round.
    pub fn handle_form_melds(
        &self,
        state: &mut GameState<BasicScore, BasicState>,
        action: FormMeldsAction,
    ) -> (r: Result<(), ActionError>)
        ensures
            self.form_melds_post(*old(state), action, *final(state), r),
    {
        let cur = state.current_player;
        if cur >= state.players.len() {
            return Err(ActionError::Internal(InternalError::InvalidCurrentPlayer { current: cur }));
        }
        let mut hand_copy = state.players[cur].cards.clone();
        assert(hand_copy@ == state.players@[cur as int].cards@);
        let mut melds = match Meld::multiple(&mut hand_copy, &action.melds) {
            Ok(m) => m,
            Err(e) => {
                proof {
                    crate::cards::meld::lemma_first_failing_meld(
                        old(state).players@[cur as int].cards@,
                        action.melds.deep_view(),
                        0,
                    );
                }
                return Err(ActionError::FailedAction(FailedActionError::FailedMeld(e)));
            },
        };
        let mut p = state.players.remove(cur);
        let ghost q = p;
        p.cards = hand_copy;
        let ghost formed = melds@;
        let ghost pre_melds = p.melds@;
        p.melds.append(&mut melds);
        let went_out = p.cards.len() == 0;
        state.players.insert(cur, p);
        if went_out {
            state.phase = GamePhase::RoundEnd;
        }
        proof {
            broadcast use vstd::seq_lib::group_to_multiset_ensures;
            broadcast use vstd::multiset::group_multiset_axioms;

            crate::cards::meld::lemma_first_failing_meld(
                q.cards@,
                action.melds.deep_view(),
                0,
            );
            assert(state.players@ =~= old(state).players@.update(cur as int, p));
            lemma_players_count_update(old(state).players@, cur as int, p);
            lemma_melds_count_concat(pre_melds, formed);
            lemma_melds_count_is_multiset_len(formed);
            assert(crate::cards::meld::melds_multiset(formed).len() == action.melds.deep_view().flatten().len()) by {
                assert(p.cards@.to_multiset().add(crate::cards::meld::melds_multiset(formed)).len()
                    == q.cards@.to_multiset().len());
            }
            assert(player_card_count(p) == player_card_count(q));

            lemma_melds_multiset_concat(pre_melds, formed);
            assert(player_card_multiset(p).add(Multiset::<Card>::empty())
                =~= player_card_multiset(q).add(Multiset::<Card>::empty())) by {
                assert(p.cards@.to_multiset().add(crate::cards::meld::melds_multiset(formed))
                    == q.cards@.to_multiset());
            }
            lemma_players_multiset_exchange(
                old(state).players@,
                cur as int,
                p,
                Multiset::empty(),
                Multiset::empty(),
            );
            let mv = Multiset::<Card>::empty();
            let pcm1 = players_card_multiset(state.players@);
            let pcm0 = players_card_multiset(old(state).players@);
            assert forall|c: Card| pcm1.count(c) == pcm0.add(mv).count(c) by {
                assert(pcm1.add(mv).count(c) == pcm1.count(c) + mv.count(c));
                assert(mv.count(c) == 0);
                assert(pcm1.add(mv).count(c) == pcm0.add(mv).count(c));
            }
            assert(pcm1 =~= pcm0.add(mv));
            let sp = state.deck.spec_stock().to_multiset();
            let dp = state.deck.spec_discard().to_multiset();
            assert forall|c: Card|
                sp.add(dp).add(mv).count(c) == old(state).deck.spec_stock().to_multiset().add(
                    old(state).deck.spec_discard().to_multiset(),
                ).count(c) by {
                assert(sp.add(dp).count(c) == sp.count(c) + dp.count(c));
                assert(sp.add(dp).add(mv).count(c) == sp.add(dp).count(c) + mv.count(c));
                assert(mv.count(c) == 0);
                assert(old(state).deck.spec_stock().to_multiset().add(
                    old(state).deck.spec_discard().to_multiset(),
                ).count(c) == old(state).deck.spec_stock().to_multiset().count(c) + old(
                    state,
                ).deck.spec_discard().to_multiset().count(c));
            }
            assert(sp.add(dp).add(mv) =~= old(state).deck.spec_stock().to_multiset().add(
                old(state).deck.spec_discard().to_multiset(),
            ));
            lemma_total_balance(*old(state), *state, mv);
        }
        Ok(())
    }

    /// Discards one card from the current player's hand onto the discard
    /// pile. An emptied hand ends the round; otherwise the turn passes to
    /// the next active player and the phase returns to `Draw`.
    pub fn handle_discard(
        &self,
        state: &mut GameState<BasicScore, BasicState>,
        action: DiscardAction,
    ) -> (r: Result<(), ActionError>)
        ensures
            self.discard_post(*old(state), action, *final(state), r),
    {
        let cur = state.current_player;
        if cur >= state.players.len() {
            return Err(ActionError::Internal(InternalError::InvalidCurrentPlayer { current: cur }));
        }
        if action.card_index >= state.players[cur].cards.len() {
            return Err(ActionError::FailedAction(FailedActionError::InvalidCardIndex));
        }
        let mut p = state.players.remove(cur);
        let ghost q = p;
        let discarded_card = p.cards.remove(action.card_index);
        state.deck.add_to_discard_pile(discarded_card);
        let went_out = p.cards.len() == 0;
        state.players.insert(cur, p);
        proof {
            broadcast use vstd::multiset::group_multiset_axioms;
            broadcast use vstd::seq_lib::group_to_multiset_ensures;

            assert(state.players@ =~= old(state).players@.update(cur as int, p));
            lemma_players_count_update(old(state).players@, cur as int, p);

            let card = q.cards@[action.card_index as int];
            assert(q.cards@.to_multiset().count(card) > 0) by {
                assert(q.cards@[action.card_index as int] == card);
            }
            assert(player_card_multiset(p).add(Multiset::<Card>::empty().insert(card))
                =~= player_card_multiset(q).add(Multiset::<Card>::empty()));
            lemma_players_multiset_exchange(
                old(state).players@,
                cur as int,
                p,
                Multiset::empty(),
                Multiset::empty().insert(card),
            );
            let mv = Multiset::<Card>::empty().insert(card);
            let pcm1 = players_card_multiset(state.players@);
            let pcm0 = players_card_multiset(old(state).players@);
            assert forall|c: Card| pcm1.add(mv).count(c) == pcm0.count(c) by {
                assert(pcm1.add(mv).count(c) == pcm0.add(Multiset::<Card>::empty()).count(c));
                assert(pcm0.add(Multiset::<Card>::empty()).count(c) == pcm0.count(c)
                    + Multiset::<Card>::empty().count(c));
                assert(Multiset::<Card>::empty().count(c) == 0);
            }
            assert(pcm1.add(mv) =~= pcm0);
            let sp = state.deck.spec_stock().to_multiset();
            let dp = state.deck.spec_discard().to_multiset();
            assert forall|c: Card|
                sp.add(dp).count(c) == old(state).deck.spec_stock().to_multiset().add(
                    old(state).deck.spec_discard().to_multiset(),
                ).add(mv).count(c) by {
                assert(sp.add(dp).count(c) == sp.count(c) + dp.count(c));
                let d0 = old(state).deck.spec_discard();
                assert(dp == d0.push(card).to_multiset());
                assert(d0.push(card).to_multiset().count(c) == d0.to_multiset().insert(
                    card,
                ).count(c));
                assert(old(state).deck.spec_stock().to_multiset().add(
                    d0.to_multiset(),
                ).add(mv).count(c) == old(state).deck.spec_stock().to_multiset().add(
                    d0.to_multiset(),
                ).count(c) + mv.count(c));
                assert(old(state).deck.spec_stock().to_multiset().add(d0.to_multiset()).count(c)
                    == old(state).deck.spec_stock().to_multiset().count(c)
                    + d0.to_multiset().count(c));
            }
            assert(sp.add(dp) =~= old(state).deck.spec_stock().to_multiset().add(
                old(state).deck.spec_discard().to_multiset(),
            ).add(mv));
            lemma_total_balance_to_deck(*old(state), *state, mv);
        }
        if went_out {
            state.phase = GamePhase::RoundEnd;
            Ok(())
        } else {
            state.phase = GamePhase::Draw;
            match state.to_next_player() {
                Ok(()) => Ok(()),
                Err(e) => Err(
                    ActionError::Internal(InternalError::InvalidCurrentPlayer { current: cur }),
                ),
            }
        }
    }
}

/// Concatenating meld lists adds their card counts.
proof fn lemma_melds_count_concat(a: Seq<Meld>, b: Seq<Meld>)
    ensures
        melds_card_count(a + b) == melds_card_count(a) + melds_card_count(b),
    decreases b.len(),
{
    if b.len() == 0 {
        assert(a + b =~= a);
    } else {
        lemma_melds_count_concat(a, b.drop_last());
        assert((a + b).drop_last() =~= a + b.drop_last());
        assert((a + b).last() == b.last());
    }
}

/// A list of melds whose lengths match a list of selections holds as many
/// cards as the selections, flattened.
proof fn lemma_melds_count_is_multiset_len(melds: Seq<Meld>)
    ensures
        melds_card_count(melds) == crate::cards::meld::melds_multiset(melds).len(),
    decreases melds.len(),
{
    broadcast use vstd::seq_lib::group_to_multiset_ensures;
    broadcast use vstd::multiset::group_multiset_axioms;

    if melds.len() > 0 {
        lemma_melds_count_is_multiset_len(melds.drop_last());
    }
}


/// Replacing one meld changes a meld list's card count by the difference.
proof fn lemma_melds_count_update(melds: Seq<Meld>, i: int, m: Meld)
    requires
        0 <= i < melds.len(),
    ensures
        melds_card_count(melds.update(i, m)) == melds_card_count(melds)
            - melds[i].spec_cards().len() + m.spec_cards().len(),
    decreases melds.len(),
{
    let ms2 = melds.update(i, m);
    if i == melds.len() - 1 {
        assert(ms2.drop_last() =~= melds.drop_last());
        assert(ms2.last() == m);
    } else {
        assert(ms2.drop_last() =~= melds.drop_last().update(i, m));
        assert(ms2.last() == melds.last());
        lemma_melds_count_update(melds.drop_last(), i, m);
    }
}

impl BasicRules {
    /// Lays a card from the current player's hand off on a meld on the
    /// table (their own or another player's); an emptied hand ends the
    /// round. A failing layoff leaves both the hand and the meld exactly
    /// as they were.
    #[verifier::rlimit(100)]
    pub fn handle_lay_off(
        &self,
        state: &mut GameState<BasicScore, BasicState>,
        action: LayOffAction,
    ) -> (r: Result<(), ActionError>)
        ensures
            self.lay_off_post(*old(state), action, *final(state), r),
    {
        let tp = action.target_player_index;
        let mi = action.target_meld_index;
        let ci = action.card_index;
        if tp >= state.players.len() {
            return Err(ActionError::FailedAction(FailedActionError::InvalidPlayerIndex));
        }
        let cur = state.current_player;
        if cur >= state.players.len() {
            return Err(ActionError::Internal(InternalError::InvalidCurrentPlayer { current: cur }));
        }
        if mi >= state.players[tp].melds.len() {
            return Err(ActionError::FailedAction(FailedActionError::InvalidMeldIndex));
        }
        let run_empty = match &state.players[tp].melds[mi] {
            Meld::Run(rn) => rn.cards().len() == 0,
            Meld::SetMeld(_) => false,
        };
        if run_empty {
            return Err(
                ActionError::FailedAction(FailedActionError::FailedMeld(MeldError::InvalidLayoff)),
            );
        }
        if ci >= state.players[cur].cards.len() {
            return Err(
                ActionError::FailedAction(
                    FailedActionError::FailedMeld(MeldError::InvalidCardIndex),
                ),
            );
        }
        if !state.players[tp].melds[mi].accepts_layoff(&state.players[cur].cards, ci) {
            return Err(
                ActionError::FailedAction(FailedActionError::FailedMeld(MeldError::InvalidLayoff)),
            );
        }

        if cur == tp {
            // Laying off to one's own meld.
            let mut p = state.players.remove(cur);
            let ghost q = p;
            let mut meld = p.melds.remove(mi);
            let ghost meld0 = meld;
            let res = match &mut meld {
                Meld::SetMeld(st) => st.layoff_card(&mut p.cards, ci),
                Meld::Run(rn) => rn.layoff_card(&mut p.cards, ci),
            };
            let ghost pre_melds = p.melds@;
            p.melds.insert(mi, meld);
            proof {
                assert(p.melds@ =~= q.melds@.update(mi as int, meld));
            }
            let went_out = res.is_ok() && p.cards.len() == 0;
            state.players.insert(cur, p);
            match res {
                Err(e) => {
                    proof {
                        assert(false);
                    }
                    return Err(ActionError::FailedAction(FailedActionError::FailedMeld(e)));
                },
                Ok(()) => {
                    if went_out {
                        state.phase = GamePhase::RoundEnd;
                    }
                    proof {
                        broadcast use vstd::multiset::group_multiset_axioms;

                        assert(state.players@ =~= old(state).players@.update(cur as int, p));
                        lemma_players_count_update(old(state).players@, cur as int, p);
                        lemma_melds_count_update(q.melds@, mi as int, meld);
                        lemma_melds_multiset_update(q.melds@, mi as int, meld);
                        assert(player_card_multiset(p).add(Multiset::<Card>::empty())
                            =~= player_card_multiset(q).add(Multiset::<Card>::empty())) by {
                            assert forall|c: Card|
                                player_card_multiset(p).count(c) == player_card_multiset(
                                    q,
                                ).count(c) by {
                                assert(crate::cards::meld::melds_multiset(p.melds@).add(
                                    meld0.spec_cards().to_multiset(),
                                ).count(c) == crate::cards::meld::melds_multiset(q.melds@).add(
                                    meld.spec_cards().to_multiset(),
                                ).count(c));
                                assert(p.cards@.to_multiset().add(
                                    meld.spec_cards().to_multiset(),
                                ).count(c) == q.cards@.to_multiset().add(
                                    meld0.spec_cards().to_multiset(),
                                ).count(c));
                            }
                        }
                        lemma_players_multiset_exchange(
                            old(state).players@,
                            cur as int,
                            p,
                            Multiset::empty(),
                            Multiset::empty(),
                        );
                        let mv = Multiset::<Card>::empty();
                        let pcm1 = players_card_multiset(state.players@);
                        let pcm0 = players_card_multiset(old(state).players@);
                        assert forall|c: Card| pcm1.count(c) == pcm0.add(mv).count(c) by {
                            assert(pcm1.add(mv).count(c) == pcm1.count(c) + mv.count(c));
                            assert(mv.count(c) == 0);
                            assert(pcm1.add(mv).count(c) == pcm0.add(mv).count(c));
                        }
                        assert(pcm1 =~= pcm0.add(mv));
                        let sp = state.deck.spec_stock().to_multiset();
                        let dp = state.deck.spec_discard().to_multiset();
                        assert forall|c: Card|
                            sp.add(dp).add(mv).count(c) == old(state).deck.spec_stock().to_multiset().add(
                                old(state).deck.spec_discard().to_multiset(),
                            ).count(c) by {
                            assert(sp.add(dp).count(c) == sp.count(c) + dp.count(c));
                            assert(sp.add(dp).add(mv).count(c) == sp.add(dp).count(c) + mv.count(c));
                            assert(mv.count(c) == 0);
                            assert(old(state).deck.spec_stock().to_multiset().add(
                                old(state).deck.spec_discard().to_multiset(),
                            ).count(c) == old(state).deck.spec_stock().to_multiset().count(c) + old(
                                state,
                            ).deck.spec_discard().to_multiset().count(c));
                        }
                        assert(sp.add(dp).add(mv) =~= old(state).deck.spec_stock().to_multiset().add(
                            old(state).deck.spec_discard().to_multiset(),
                        ));
                        lemma_total_balance(*old(state), *state, mv);
                    }
                    return Ok(());
                },
            }
        } else {
            // Laying off to another player's meld; take both players out,
            // highest seat first, and put them back afterwards.
            if cur < tp {
                let mut tgt = state.players.remove(tp);
                let mut p = state.players.remove(cur);
                let ghost q = p;
                let ghost tq = tgt;
                let mut meld = tgt.melds.remove(mi);
                let ghost meld0 = meld;
                let res = match &mut meld {
                    Meld::SetMeld(st) => st.layoff_card(&mut p.cards, ci),
                    Meld::Run(rn) => rn.layoff_card(&mut p.cards, ci),
                };
                tgt.melds.insert(mi, meld);
                proof {
                    assert(tgt.melds@ =~= tq.melds@.update(mi as int, meld));
                }
                let went_out = res.is_ok() && p.cards.len() == 0;
                state.players.insert(cur, p);
                state.players.insert(tp, tgt);
                match res {
                    Err(e) => {
                        proof {
                            assert(false);
                        }
                        return Err(ActionError::FailedAction(FailedActionError::FailedMeld(e)));
                    },
                    Ok(()) => {
                        if went_out {
                            state.phase = GamePhase::RoundEnd;
                        }
                        proof {
                            broadcast use vstd::multiset::group_multiset_axioms;

                            assert(state.players@ =~= old(state).players@.update(
                                cur as int,
                                p,
                            ).update(tp as int, tgt));
                            lemma_players_count_update(old(state).players@, cur as int, p);
                            lemma_players_count_update(
                                old(state).players@.update(cur as int, p),
                                tp as int,
                                tgt,
                            );
                            lemma_melds_count_update(tq.melds@, mi as int, meld);
                            lemma_melds_multiset_update(tq.melds@, mi as int, meld);
                            assert(player_card_multiset(p).add(player_card_multiset(tgt))
                                =~= player_card_multiset(q).add(player_card_multiset(tq))) by {
                                assert forall|c: Card|
                                    player_card_multiset(p).add(
                                        player_card_multiset(tgt),
                                    ).count(c) == player_card_multiset(q).add(
                                        player_card_multiset(tq),
                                    ).count(c) by {
                                    assert(crate::cards::meld::melds_multiset(tgt.melds@).add(
                                        meld0.spec_cards().to_multiset(),
                                    ).count(c) == crate::cards::meld::melds_multiset(
                                        tq.melds@,
                                    ).add(meld.spec_cards().to_multiset()).count(c));
                                    assert(p.cards@.to_multiset().add(
                                        meld.spec_cards().to_multiset(),
                                    ).count(c) == q.cards@.to_multiset().add(
                                        meld0.spec_cards().to_multiset(),
                                    ).count(c));
                                }
                            }
                            lemma_players_multiset_exchange2(
                                old(state).players@,
                                cur as int,
                                tp as int,
                                p,
                                tgt,
                            );
                            let mv = Multiset::<Card>::empty();
                            let pcm1 = players_card_multiset(state.players@);
                            let pcm0 = players_card_multiset(old(state).players@);
                            assert forall|c: Card| pcm1.count(c) == pcm0.add(mv).count(c) by {
                                assert(pcm0.add(mv).count(c) == pcm0.count(c) + mv.count(c));
                                assert(mv.count(c) == 0);
                            }
                            assert(pcm1 =~= pcm0.add(mv));
                            let sp = state.deck.spec_stock().to_multiset();
                            let dp = state.deck.spec_discard().to_multiset();
                            assert forall|c: Card|
                                sp.add(dp).add(mv).count(c) == old(
                                    state,
                                ).deck.spec_stock().to_multiset().add(
                                    old(state).deck.spec_discard().to_multiset(),
                                ).count(c) by {
                                assert(sp.add(dp).count(c) == sp.count(c) + dp.count(c));
                                assert(sp.add(dp).add(mv).count(c) == sp.add(dp).count(c)
                                    + mv.count(c));
                                assert(mv.count(c) == 0);
                                assert(old(state).deck.spec_stock().to_multiset().add(
                                    old(state).deck.spec_discard().to_multiset(),
                                ).count(c) == old(
                                    state,
                                ).deck.spec_stock().to_multiset().count(c) + old(
                                    state,
                                ).deck.spec_discard().to_multiset().count(c));
                            }
                            assert(sp.add(dp).add(mv) =~= old(
                                state,
                            ).deck.spec_stock().to_multiset().add(
                                old(state).deck.spec_discard().to_multiset(),
                            ));
                            lemma_total_balance(*old(state), *state, mv);
                        }
                        return Ok(());
                    },
                }
            } else {
                let mut p = state.players.remove(cur);
                let mut tgt = state.players.remove(tp);
                let ghost q = p;
                let ghost tq = tgt;
                let mut meld = tgt.melds.remove(mi);
                let ghost meld0 = meld;
                let res = match &mut meld {
                    Meld::SetMeld(st) => st.layoff_card(&mut p.cards, ci),
                    Meld::Run(rn) => rn.layoff_card(&mut p.cards, ci),
                };
                tgt.melds.insert(mi, meld);
                proof {
                    assert(tgt.melds@ =~= tq.melds@.update(mi as int, meld));
                }
                let went_out = res.is_ok() && p.cards.len() == 0;
                state.players.insert(tp, tgt);
                state.players.insert(cur, p);
                match res {
                    Err(e) => {
                        proof {
                            assert(false);
                        }
                        return Err(ActionError::FailedAction(FailedActionError::FailedMeld(e)));
                    },
                    Ok(()) => {
                        if went_out {
                            state.phase = GamePhase::RoundEnd;
                        }
                        proof {
                            broadcast use vstd::multiset::group_multiset_axioms;

                            assert(state.players@ =~= old(state).players@.update(
                                cur as int,
                                p,
                            ).update(tp as int, tgt));
                            lemma_players_count_update(old(state).players@, cur as int, p);
                            lemma_players_count_update(
                                old(state).players@.update(cur as int, p),
                                tp as int,
                                tgt,
                            );
                            lemma_melds_count_update(tq.melds@, mi as int, meld);
                            lemma_melds_multiset_update(tq.melds@, mi as int, meld);
                            assert(player_card_multiset(p).add(player_card_multiset(tgt))
                                =~= player_card_multiset(q).add(player_card_multiset(tq))) by {
                                assert forall|c: Card|
                                    player_card_multiset(p).add(
                                        player_card_multiset(tgt),
                                    ).count(c) == player_card_multiset(q).add(
                                        player_card_multiset(tq),
                                    ).count(c) by {
                                    assert(crate::cards::meld::melds_multiset(tgt.melds@).add(
                                        meld0.spec_cards().to_multiset(),
                                    ).count(c) == crate::cards::meld::melds_multiset(
                                        tq.melds@,
                                    ).add(meld.spec_cards().to_multiset()).count(c));
                                    assert(p.cards@.to_multiset().add(
                                        meld.spec_cards().to_multiset(),
                                    ).count(c) == q.cards@.to_multiset().add(
                                        meld0.spec_cards().to_multiset(),
                                    ).count(c));
                                }
                            }
                            lemma_players_multiset_exchange2(
                                old(state).players@,
                                cur as int,
                                tp as int,
                                p,
                                tgt,
                            );
                            let mv = Multiset::<Card>::empty();
                            let pcm1 = players_card_multiset(state.players@);
                            let pcm0 = players_card_multiset(old(state).players@);
                            assert forall|c: Card| pcm1.count(c) == pcm0.add(mv).count(c) by {
                                assert(pcm0.add(mv).count(c) == pcm0.count(c) + mv.count(c));
                                assert(mv.count(c) == 0);
                            }
                            assert(pcm1 =~= pcm0.add(mv));
                            let sp = state.deck.spec_stock().to_multiset();
                            let dp = state.deck.spec_discard().to_multiset();
                            assert forall|c: Card|
                                sp.add(dp).add(mv).count(c) == old(
                                    state,
                                ).deck.spec_stock().to_multiset().add(
                                    old(state).deck.spec_discard().to_multiset(),
                                ).count(c) by {
                                assert(sp.add(dp).count(c) == sp.count(c) + dp.count(c));
                                assert(sp.add(dp).add(mv).count(c) == sp.add(dp).count(c)
                                    + mv.count(c));
                                assert(mv.count(c) == 0);
                                assert(old(state).deck.spec_stock().to_multiset().add(
                                    old(state).deck.spec_discard().to_multiset(),
                                ).count(c) == old(
                                    state,
                                ).deck.spec_stock().to_multiset().count(c) + old(
                                    state,
                                ).deck.spec_discard().to_multiset().count(c));
                            }
                            assert(sp.add(dp).add(mv) =~= old(
                                state,
                            ).deck.spec_stock().to_multiset().add(
                                old(state).deck.spec_discard().to_multiset(),
                            ));
                            lemma_total_balance(*old(state), *state, mv);
                        }
                        return Ok(());
                    },
                }
            }
        }
    }
}


impl BasicRules {
    /// Calculate the score for a round: each player's remaining hand value;
    /// the (a) player with score 0 is the round's winner.
    ///
    /// Returns `Err` if the round hasn't ended, or (fatally) if no player
    /// has an empty-handed score of 0.
    pub fn calculate_round_score(&self, state: &GameState<BasicScore, BasicState>) -> (r: Result<
        RoundScore<BasicScore>,
        GameError,
    >)
        ensures
            state.phase != GamePhase::RoundEnd ==> (r matches Err(e) && e
                == GameError::WrongGamePhase),
            state.phase == GamePhase::RoundEnd && (forall|i: int|
                0 <= i < state.players@.len() ==> hand_score(
                    (#[trigger] state.players@[i]).cards@,
                ) != 0) ==> (r matches Err(e) && e == GameError::Internal(
                InternalError::RoundHasNoWinner,
            )),
            state.phase == GamePhase::RoundEnd && (exists|i: int|
                0 <= i < state.players@.len() && hand_score(
                    (#[trigger] state.players@[i]).cards@,
                ) == 0) ==> (r matches Ok(rs) && {
                &&& exists|i: int|
                    0 <= i < state.players@.len() && (#[trigger] state.players@[i]).id
                        == rs.winner_id && hand_score(state.players@[i].cards@) == 0
                &&& forall|i: int|
                    0 <= i < state.players@.len() ==> rs.player_scores@.contains_key(
                        (#[trigger] state.players@[i]).id,
                    )
                &&& (player_ids_distinct(state.players@) ==> (forall|i: int|
                    0 <= i < state.players@.len() ==> {
                        let p = #[trigger] state.players@[i];
                        rs.player_scores@[p.id].spec_score() == (if hand_score(p.cards@)
                            <= u32::MAX as int {
                            hand_score(p.cards@)
                        } else {
                            u32::MAX as int
                        })
                    }))
            }),
    {
        if !matches!(state.phase, GamePhase::RoundEnd) {
            return Err(GameError::WrongGamePhase);
        }
        let n = state.players.len();
        let mut player_scores: HashMap<usize, BasicScore> = HashMap::new();
        let mut i: usize = 0;
        while i < n
            invariant
                i <= n,
                n == state.players@.len(),
                forall|k: int|
                    0 <= k < i ==> player_scores@.contains_key(
                        (#[trigger] state.players@[k]).id,
                    ),
                player_ids_distinct(state.players@) ==> (forall|k: int|
                    0 <= k < i ==> {
                        let p = #[trigger] state.players@[k];
                        player_scores@[p.id].spec_score() == (if hand_score(p.cards@)
                            <= u32::MAX as int {
                            hand_score(p.cards@)
                        } else {
                            u32::MAX as int
                        })
                    }),
            decreases n - i,
        {
            let score = BasicScore::score_player(&state.players[i]);
            player_scores.insert(state.players[i].id(), score);
            i = i + 1;
        }

        let mut winner: Option<usize> = None;
        let mut j: usize = 0;
        while j < n
            invariant
                j <= n,
                n == state.players@.len(),
                winner is None ==> forall|k: int|
                    0 <= k < j ==> hand_score((#[trigger] state.players@[k]).cards@) != 0,
                winner matches Some(id) ==> exists|k: int|
                    0 <= k < n && (#[trigger] state.players@[k]).id == id && hand_score(
                        state.players@[k].cards@,
                    ) == 0,
            decreases n - j,
        {
            if winner.is_none() {
                let score = BasicScore::score_player(&state.players[j]);
                if score.score() == 0 {
                    proof {
                        lemma_hand_score_nonneg(state.players@[j as int].cards@);
                    }
                    winner = Some(state.players[j].id());
                }
            }
            j = j + 1;
        }
        match winner {
            Some(winner_id) => Ok(RoundScore { player_scores, winner_id }),
            None => Err(GameError::Internal(InternalError::RoundHasNoWinner)),
        }
    }

    /// Executes an action for the current player: the action's legality in
    /// the current phase is checked first, then the matching handler runs.
    ///
    /// A failed action leaves the state untouched; a successful one keeps
    /// every card of the round in play.
    pub fn execute_action(
        &self,
        state: &mut GameState<BasicScore, BasicState>,
        action: GameAction,
    ) -> (r: Result<(), ActionError>)
        ensures
            final(state).deck.spec_config() == old(state).deck.spec_config(),
            !phase_allows(old(state).phase, action) ==> (r matches Err(e) && e
                == ActionError::FailedAction(
                FailedActionError::InvalidGamePhase { current_phase: old(state).phase },
            )) && *final(state) == *old(state),
            (r matches Err(e) && e matches ActionError::FailedAction(_)) ==> *final(state) == *old(
                state,
            ),
            final(state).total_card_count() == old(state).total_card_count(),
            final(state).total_card_multiset() == old(state).total_card_multiset(),
            r is Ok ==> final(state).players@.len() == old(state).players@.len(),
            r is Ok ==> final(state).current_round == old(state).current_round,
            phase_allows(old(state).phase, action) ==> ({
                let pre = *old(state);
                let post = *final(state);
                &&& (action matches GameAction::DrawDeck(a) ==> self.draw_deck_post(
                    pre,
                    a,
                    post,
                    r,
                ))
                &&& (action matches GameAction::DrawDiscardPile(a)
                    ==> self.draw_discard_pile_post(pre, a, post, r))
                &&& (action matches GameAction::LayOff(a) ==> self.lay_off_post(pre, a, post, r))
                &&& (action matches GameAction::FormMeld(a) ==> self.form_meld_post(
                    pre,
                    a,
                    post,
                    r,
                ))
                &&& (action matches GameAction::FormMelds(a) ==> self.form_melds_post(
                    pre,
                    a,
                    post,
                    r,
                ))
                &&& (action matches GameAction::Discard(a) ==> self.discard_post(pre, a, post, r))
            }),
    {
        match state.validate_action(&action) {
            Ok(()) => {},
            Err(e) => {
                return Err(e);
            },
        }
        match action {
            GameAction::DrawDeck(a) => self.handle_draw_deck(state, a),
            GameAction::DrawDiscardPile(a) => self.handle_draw_discard_pile(state, a),
            GameAction::LayOff(a) => self.handle_lay_off(state, a),
            GameAction::FormMeld(a) => self.handle_form_meld(state, a),
            GameAction::FormMelds(a) => self.handle_form_melds(state, a),
            GameAction::Discard(a) => self.handle_discard(state, a),
        }
    }
}

impl GameRules for BasicRules {
    type VariantState = BasicState;

    type VariantScore = BasicScore;

    fn execute_action(
        &self,
        state: &mut GameState<BasicScore, BasicState>,
        action: GameAction,
    ) -> Result<(), ActionError> {
        BasicRules::execute_action(self, state, action)
    }

    fn handle_draw_deck(
        &self,
        state: &mut GameState<BasicScore, BasicState>,
        action: DrawDeckAction,
    ) -> Result<(), ActionError> {
        BasicRules::handle_draw_deck(self, state, action)
    }

    fn handle_draw_discard_pile(
        &self,
        state: &mut GameState<BasicScore, BasicState>,
        action: DrawDiscardPileAction,
    ) -> Result<(), ActionError> {
        BasicRules::handle_draw_discard_pile(self, state, action)
    }

    fn handle_lay_off(
        &self,
        state: &mut GameState<BasicScore, BasicState>,
        action: LayOffAction,
    ) -> Result<(), ActionError> {
        BasicRules::handle_lay_off(self, state, action)
    }

    fn handle_form_meld(
        &self,
        state: &mut GameState<BasicScore, BasicState>,
        action: FormMeldAction,
    ) -> Result<(), ActionError> {
        BasicRules::handle_form_meld(self, state, action)
    }

    fn handle_form_melds(
        &self,
        state: &mut GameState<BasicScore, BasicState>,
        action: FormMeldsAction,
    ) -> Result<(), ActionError> {
        BasicRules::handle_form_melds(self, state, action)
    }

    fn handle_discard(
        &self,
        state: &mut GameState<BasicScore, BasicState>,
        action: DiscardAction,
    ) -> Result<(), ActionError> {
        BasicRules::handle_discard(self, state, action)
    }

    fn calculate_round_score(&self, state: &GameState<BasicScore, BasicState>) -> Result<
        RoundScore<BasicScore>,
        GameError,
    > {
        BasicRules::calculate_round_score(self, state)
    }
}


/// Counts the currently active players.
pub fn count_active_players(players: &Vec<Player>) -> (r: usize)
    ensures
        r == active_count(players@),
{
    let n = players.len();
    let mut active: usize = 0;
    let mut i: usize = 0;
    while i < n
        invariant
            i <= n,
            n == players@.len(),
            active == active_count(players@.take(i as int)),
            active <= i,
        decreases n - i,
    {
        proof {
            assert(players@.take(i as int + 1).drop_last() =~= players@.take(i as int));
        }
        if players[i].active {
            active = active + 1;
        }
        i = i + 1;
    }
    proof {
        assert(players@.take(n as int) =~= players@);
    }
    active
}

} // verus!
