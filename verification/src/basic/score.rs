//! The representation of a player's score in basic Rummy.

use vstd::prelude::*;

use crate::cards::card::{rank_score, Card};
use crate::game::score::VariantPlayerScore;
use crate::player::Player;

verus! {

/// The total scoring value of a hand: Ace counts 1, number cards their
/// face value, face cards 10.
pub open spec fn hand_score(cards: Seq<Card>) -> int
    decreases cards.len(),
{
    if cards.len() == 0 {
        0
    } else {
        hand_score(cards.drop_last()) + rank_score(cards.last().rank)
    }
}

/// A single player's score in basic Rummy.
#[derive(Debug, Clone, Copy, PartialEq, Eq, Structural)]
pub struct BasicScore {
    score: u32,
}

impl BasicScore {
    /// The score as a plain number.
    pub closed spec fn spec_score(self) -> int {
        self.score as int
    }

    /// Score a player: the values of the cards left in their hand, summed
    /// (saturating at the numeric limit).
    pub fn score_player(player: &Player) -> (s: BasicScore)
        ensures
            s.spec_score() == if hand_score(player.cards@) <= u32::MAX as int {
                hand_score(player.cards@)
            } else {
                u32::MAX as int
            },
    {
        let n = player.cards.len();
        let mut total: u32 = 0;
        let mut i: usize = 0;
        while i < n
            invariant
                i <= n,
                n == player.cards@.len(),
                total as int == if hand_score(player.cards@.take(i as int)) <= u32::MAX as int {
                    hand_score(player.cards@.take(i as int))
                } else {
                    u32::MAX as int
                },
            decreases n - i,
        {
            let v = player.cards[i].score_value();
            proof {
                assert(player.cards@.take(i as int + 1).drop_last() =~= player.cards@.take(
                    i as int,
                ));
                assert(player.cards@.take(i as int + 1).last() == player.cards@[i as int]);
                assert(hand_score(player.cards@.take(i as int)) >= 0) by {
                    lemma_hand_score_nonneg(player.cards@.take(i as int));
                }
            }
            total = total.saturating_add(v as u32);
            i = i + 1;
        }
        proof {
            assert(player.cards@.take(n as int) =~= player.cards@);
        }
        BasicScore { score: total }
    }

    /// Get the score.
    pub fn score(&self) -> (s: u32)
        ensures
            s as int == self.spec_score(),
    {
        self.score
    }
}

/// A hand never scores negatively.
pub proof fn lemma_hand_score_nonneg(cards: Seq<Card>)
    ensures
        hand_score(cards) >= 0,
    decreases cards.len(),
{
    if cards.len() > 0 {
        lemma_hand_score_nonneg(cards.drop_last());
    }
}

impl VariantPlayerScore for BasicScore {

}

} // verus!
