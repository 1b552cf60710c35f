//! The `Deck`, consisting of a stock and a discard pile, and its immutable
//! `DeckConfig`.

use vstd::prelude::*;

use crate::cards::card::Card;
use crate::cards::suit_rank::{rank_at, rank_number, suit_at, suit_number, Rank, Suit};
use rand::rngs::StdRng;
use rand::seq::SliceRandom;
use rand::SeedableRng;

verus! {

/// Configurable values for a deck's behaviour.
///
/// ### `shuffle_seed`
/// Optional seed for shuffling, where `Some(0)` results in no shuffle and
/// any other seed in a deterministic shuffle. The default (`None`) is a
/// completely randomized shuffle.
///
/// ### `pack_count`
/// The number of card packs to include in the deck; values below 1 are
/// coerced to 1 when a deck is created.
///
/// ### `high_rank`
/// Optional rank to override the highest rank. If set, the rank right after
/// it becomes the lowest rank. The default is King.
///
/// ### `wildcard_rank`
/// Optional rank to denote as the wildcard (possibly the Joker, in which
/// case 2 Jokers are added per pack). The default is to have no wildcards.
#[derive(Debug, Clone, Copy, PartialEq, Eq, Hash)]
pub struct DeckConfig {
    pub shuffle_seed: Option<u64>,
    pub pack_count: usize,
    pub high_rank: Option<Rank>,
    pub wildcard_rank: Option<Rank>,
}

impl DeckConfig {
    /// Creates a new `DeckConfig` with standard settings: one pack, a random
    /// shuffle, King high and no wildcards.
    ///
    /// To customize, create the struct manually with the intended values.
    pub fn new() -> (c: DeckConfig)
        ensures
            c == DeckConfig::spec_default(),
    {
        DeckConfig {
            shuffle_seed: Option::None,
            pack_count: 1,
            high_rank: Option::None,
            wildcard_rank: Option::None,
        }
    }

    /// The standard configuration returned by [`DeckConfig::new`].
    pub open spec fn spec_default() -> DeckConfig {
        DeckConfig {
            shuffle_seed: Option::None,
            pack_count: 1,
            high_rank: Option::None,
            wildcard_rank: Option::None,
        }
    }
}

impl Default for DeckConfig {
    /// The standard configuration, as from [`DeckConfig::new`].
    fn default() -> (c: DeckConfig)
        ensures
            c == DeckConfig::spec_default(),
    {
        DeckConfig::new()
    }
}

/// Reasons a deck operation can fail.
#[derive(Debug, Clone, Copy, PartialEq, Eq, Structural)]
pub enum DeckError {
    /// A draw asked for more cards than the stock (or, for replenishing
    /// draws, the stock and discard pile together) can supply.
    InsufficientStock,
    /// A discard-pile draw asked for more cards than the pile holds.
    InsufficientDiscardPile,
    /// A discard-pile draw was attempted while the pile was empty.
    EmptyDiscardPile,
    /// A specifically requested card is not in the stock.
    CardNotFound,
}

/// The configuration actually carried by a deck created from `config`:
/// the same values with `pack_count` coerced to at least 1.
pub open spec fn coerced_config(config: DeckConfig) -> DeckConfig {
    DeckConfig {
        pack_count: if config.pack_count < 1 {
            1
        } else {
            config.pack_count
        },
        ..config
    }
}

/// How many cards one pack contributes: 52, plus 2 Jokers when the wildcard
/// rank is the Joker.
pub open spec fn pack_block_size(config: DeckConfig) -> int {
    if config.wildcard_rank == Option::Some(Rank::Joker) {
        54
    } else {
        52
    }
}

/// The card generated at position `i` of a fresh, unshuffled stock: packs
/// are laid out one after the other, each pack running through the ranks in
/// ascending order with the four suits ascending within every rank, followed
/// by the pack's two Jokers when the Joker is the wildcard.
pub open spec fn generated_card(config: DeckConfig, i: int) -> Card {
    let off = i % pack_block_size(config);
    if off < 52 {
        Card {
            rank: rank_at(1 + off / 4),
            suit: suit_at(1 + off % 4),
            deck_config: config,
        }
    } else {
        Card { rank: Rank::Joker, suit: Suit::Joker, deck_config: config }
    }
}

/// The full sequence of cards a deck generates from `config`, in generation
/// order.
pub open spec fn generated_seq(config: DeckConfig) -> Seq<Card> {
    Seq::new(
        (config.pack_count * pack_block_size(config)) as nat,
        |i: int| generated_card(config, i),
    )
}

/// The permutation that a shuffle seeded with `seed` leaves `cards` in: a
/// function of the cards and the seed alone.
pub uninterp spec fn seeded_shuffle_of(cards: Seq<Card>, seed: u64) -> Seq<Card>;

/// Relies on rand's `SliceRandom::shuffle` driven by `StdRng::seed_from_u64`:
/// a Fisher-Yates pass of in-place swaps, so the result holds the same
/// cards; it depends on the slice and the seed alone, deterministically.
#[verifier::external_body]
fn shuffle_cards_seeded(cards: &mut Vec<Card>, seed: u64)
    ensures
        final(cards)@ == seeded_shuffle_of(old(cards)@, seed),
        final(cards)@.to_multiset() == old(cards)@.to_multiset(),
        final(cards)@.len() == old(cards)@.len(),
{
    cards.shuffle(&mut StdRng::seed_from_u64(seed));
}

/// Relies on rand's `SliceRandom::shuffle` driven by `rand::thread_rng`:
/// a Fisher-Yates pass that permutes the slice in place.
#[verifier::external_body]
fn shuffle_cards_random(cards: &mut Vec<Card>)
    ensures
        final(cards)@.to_multiset() == old(cards)@.to_multiset(),
        final(cards)@.len() == old(cards)@.len(),
{
    cards.shuffle(&mut rand::thread_rng());
}

/// The deck.
///
/// Consists of the:
/// - **config**, dictating shuffling, pack counts, wildcards etc.
/// - **stock**, face-down cards that can be drawn at the start of each turn
/// - **discard pile**, discarded cards, which can also be drawn
///
/// Both piles are ordered with their top card last.
#[derive(Debug, Clone, PartialEq, Eq)]
pub struct Deck {
    pub(crate) config: DeckConfig,
    pub(crate) stock: Vec<Card>,
    pub(crate) discard_pile: Vec<Card>,
}

impl Deck {
    /// The deck's configuration.
    pub closed spec fn spec_config(self) -> DeckConfig {
        self.config
    }

    /// The stock, bottom card first.
    pub closed spec fn spec_stock(self) -> Seq<Card> {
        self.stock@
    }

    /// The discard pile, bottom card first.
    pub closed spec fn spec_discard(self) -> Seq<Card> {
        self.discard_pile@
    }

    /// Creates a new deck following the settings in `config` and shuffles it.
    ///
    /// **Note**:
    /// - If `pack_count` < 1, it will be set to 1.
    /// - If `shuffle_seed` is `Some(0)`, the stock is left in generation
    ///   order; any other seed shuffles deterministically from that seed,
    ///   and `None` shuffles randomly.
    /// - If `wildcard_rank` is `Joker`, 2 Jokers will be added per pack.
    pub fn new(config: DeckConfig) -> (d: Deck)
        requires
            config.pack_count <= usize::MAX / 54,
        ensures
            d.spec_config() == coerced_config(config),
            d.spec_discard() == Seq::<Card>::empty(),
            d.spec_stock().to_multiset() == generated_seq(coerced_config(config)).to_multiset(),
            d.spec_stock().len() == generated_seq(coerced_config(config)).len(),
            coerced_config(config).shuffle_seed == Option::Some(0u64) ==> d.spec_stock()
                == generated_seq(coerced_config(config)),
            coerced_config(config).shuffle_seed matches Some(s) ==> (s == 0 || d.spec_stock()
                == seeded_shuffle_of(generated_seq(coerced_config(config)), s)),
    {
        let mut config = config;
        if config.pack_count < 1 {
            config.pack_count = 1;
        }

        let mut deck = Deck { config, stock: Vec::new(), discard_pile: Vec::new() };

        Deck::generate_cards(&mut deck.stock, &config);
        Deck::shuffle_cards(&mut deck.stock, &config);

        deck
    }

    /// (Re)creates the deck, under its existing configuration, and shuffles
    /// it.
    pub fn reset(&mut self)
        requires
            old(self).spec_config().pack_count <= usize::MAX / 54,
        ensures
            final(self).spec_config() == coerced_config(old(self).spec_config()),
            final(self).spec_discard() == Seq::<Card>::empty(),
            final(self).spec_stock().to_multiset() == generated_seq(
                coerced_config(old(self).spec_config()),
            ).to_multiset(),
            final(self).spec_stock().len() == generated_seq(
                coerced_config(old(self).spec_config()),
            ).len(),
            old(self).spec_config().shuffle_seed == Option::Some(0u64)
                ==> final(self).spec_stock() == generated_seq(
                coerced_config(old(self).spec_config()),
            ),
            old(self).spec_config().shuffle_seed matches Some(s) ==> (s == 0
                || final(self).spec_stock() == seeded_shuffle_of(
                generated_seq(coerced_config(old(self).spec_config())),
                s,
            )),
    {
        if self.config.pack_count < 1 {
            self.config.pack_count = 1;
        }
        self.stock.clear();
        self.discard_pile.clear();
        let config = self.config;
        Deck::generate_cards(&mut self.stock, &config);
        Deck::shuffle_cards(&mut self.stock, &config);
    }

    /// Draw `amount` cards from the deck stock.
    ///
    /// If `amount` is greater than the stock size, `Err` is returned and
    /// nothing changes.
    ///
    /// The drawn cards come from the top of the stock, bottom-most first.
    ///
    /// To replenish the stock, one can call `shuffle_discarded` or
    /// `turnover_discarded`.
    pub fn try_draw(&mut self, amount: usize) -> (r: Result<Vec<Card>, DeckError>)
        ensures
            amount > old(self).spec_stock().len() ==> {
                &&& r matches Err(e) && e == DeckError::InsufficientStock
                &&& *final(self) == *old(self)
            },
            amount <= old(self).spec_stock().len() ==> {
                &&& r matches Ok(cards) && cards@ == old(self).spec_stock().skip(
                    old(self).spec_stock().len() - amount,
                )
                &&& final(self).spec_stock() == old(self).spec_stock().take(
                    old(self).spec_stock().len() - amount,
                )
                &&& final(self).spec_discard() == old(self).spec_discard()
                &&& final(self).spec_config() == old(self).spec_config()
            },
    {
        if amount > self.stock.len() {
            return Err(DeckError::InsufficientStock);
        }
        let at = self.stock.len() - amount;
        let cards = self.stock.split_off(at);
        Ok(cards)
    }

    /// Draw `amount` cards from the deck stock; automatically turns over the
    /// discard pile into the stock first if the stock alone is not enough.
    ///
    /// If `amount` is still greater than the replenished stock size, `Err`
    /// is returned (after the turnover).
    ///
    /// ## Note
    /// If this errors, it is probably a serious issue.
    pub fn draw(&mut self, amount: usize) -> (r: Result<Vec<Card>, DeckError>)
        ensures
            amount <= old(self).spec_stock().len() ==> {
                &&& r matches Ok(cards) && cards@ == old(self).spec_stock().skip(
                    old(self).spec_stock().len() - amount,
                )
                &&& final(self).spec_stock() == old(self).spec_stock().take(
                    old(self).spec_stock().len() - amount,
                )
                &&& final(self).spec_discard() == old(self).spec_discard()
                &&& final(self).spec_config() == old(self).spec_config()
            },
            old(self).spec_stock().len() < amount <= old(self).spec_stock().len()
                + old(self).spec_discard().len() ==> {
                let combined = (old(self).spec_stock() + old(self).spec_discard()).reverse();
                &&& r matches Ok(cards) && cards@ == combined.skip(combined.len() - amount)
                &&& final(self).spec_stock() == combined.take(combined.len() - amount)
                &&& final(self).spec_discard() == Seq::<Card>::empty()
                &&& final(self).spec_config() == old(self).spec_config()
            },
            amount > old(self).spec_stock().len() + old(self).spec_discard().len() ==> {
                &&& r matches Err(e) && e == DeckError::InsufficientStock
                &&& final(self).spec_stock() == (old(self).spec_stock()
                    + old(self).spec_discard()).reverse()
                &&& final(self).spec_discard() == Seq::<Card>::empty()
                &&& final(self).spec_config() == old(self).spec_config()
            },
    {
        if amount > self.stock.len() {
            self.turnover_discarded();
        }
        if amount > self.stock.len() {
            return Err(DeckError::InsufficientStock);
        }
        let at = self.stock.len() - amount;
        let cards = self.stock.split_off(at);
        Ok(cards)
    }

    /// See the top card of the discard pile, if there is one.
    pub fn peek_discard_pile(&self) -> (r: Option<crate::cards::card::CardData>)
        ensures
            self.spec_discard().len() == 0 ==> r is None,
            self.spec_discard().len() > 0 ==> {
                let top = self.spec_discard().last();
                r matches Some(d) && d == (crate::cards::card::CardData {
                    rank: top.rank,
                    suit: top.suit,
                })
            },
    {
        if self.discard_pile.len() == 0 {
            None
        } else {
            Some(self.discard_pile[self.discard_pile.len() - 1].data())
        }
    }

    /// Attempt to draw a chosen amount of cards from the discard pile.
    ///
    /// If the pile is empty, or `amount` is greater than its size, `Err` is
    /// returned and nothing changes.
    ///
    /// The drawn cards come from the top of the pile, bottom-most first.
    pub fn draw_discard_pile(&mut self, amount: usize) -> (r: Result<Vec<Card>, DeckError>)
        ensures
            old(self).spec_discard().len() == 0 ==> {
                &&& r matches Err(e) && e == DeckError::EmptyDiscardPile
                &&& *final(self) == *old(self)
            },
            old(self).spec_discard().len() > 0 && amount > old(self).spec_discard().len() ==> {
                &&& r matches Err(e) && e == DeckError::InsufficientDiscardPile
                &&& *final(self) == *old(self)
            },
            0 < amount <= old(self).spec_discard().len() || (amount == 0
                && old(self).spec_discard().len() > 0) ==> {
                &&& r matches Ok(cards) && cards@ == old(self).spec_discard().skip(
                    old(self).spec_discard().len() - amount,
                )
                &&& final(self).spec_discard() == old(self).spec_discard().take(
                    old(self).spec_discard().len() - amount,
                )
                &&& final(self).spec_stock() == old(self).spec_stock()
                &&& final(self).spec_config() == old(self).spec_config()
            },
    {
        let discard_size = self.discard_pile.len();
        if discard_size == 0 {
            Err(DeckError::EmptyDiscardPile)
        } else if amount > discard_size {
            Err(DeckError::InsufficientDiscardPile)
        } else {
            Ok(self.discard_pile.split_off(discard_size - amount))
        }
    }

    /// Attempt to draw the (topmost) card of the given rank and suit from
    /// the stock.
    ///
    /// If no such card is in the stock, `Err` is returned and nothing
    /// changes.
    pub fn draw_specific(&mut self, rank: Rank, suit: Suit) -> (r: Result<Card, DeckError>)
        ensures
            (exists|i: int|
                0 <= i < old(self).spec_stock().len() && old(self).spec_stock()[i].rank == rank
                    && old(self).spec_stock()[i].suit == suit) ==> {
                &&& r matches Ok(c) && (exists|i: int|
                    {
                        &&& 0 <= i < old(self).spec_stock().len()
                        &&& old(self).spec_stock()[i] == c
                        &&& final(self).spec_stock() == old(self).spec_stock().remove(i)
                    })
                &&& r matches Ok(c) && c.rank == rank && c.suit == suit
                &&& final(self).spec_discard() == old(self).spec_discard()
                &&& final(self).spec_config() == old(self).spec_config()
            },
            (forall|i: int|
                0 <= i < old(self).spec_stock().len() ==> !(old(self).spec_stock()[i].rank == rank
                    && old(self).spec_stock()[i].suit == suit)) ==> {
                &&& r matches Err(e) && e == DeckError::CardNotFound
                &&& *final(self) == *old(self)
            },
    {
        let ghost s = self.spec_stock();
        let mut idx = self.stock.len();
        let mut found: Option<usize> = None;
        while idx > 0 && found.is_none()
            invariant
                idx <= s.len(),
                s == self.spec_stock(),
                match found {
                    Option::None => forall|i: int|
                        idx <= i < s.len() ==> !(s[i].rank == rank && s[i].suit == suit),
                    Option::Some(f) => {
                        &&& f < s.len()
                        &&& s[f as int].rank == rank
                        &&& s[f as int].suit == suit
                    },
                },
            decreases idx,
        {
            idx = idx - 1;
            if self.stock[idx].rank == rank && self.stock[idx].suit == suit {
                found = Some(idx);
            }
        }
        match found {
            Some(i) => {
                let card = self.stock.remove(i);
                Ok(card)
            },
            None => Err(DeckError::CardNotFound),
        }
    }

    /// Drains `cards` into the discard pile, preserving their order.
    pub fn add_multiple_to_discard_pile(&mut self, cards: &mut Vec<Card>)
        ensures
            final(self).spec_discard() == old(self).spec_discard() + old(cards)@,
            final(cards)@ == Seq::<Card>::empty(),
            final(self).spec_stock() == old(self).spec_stock(),
            final(self).spec_config() == old(self).spec_config(),
    {
        self.discard_pile.append(cards);
    }

    /// Add a single card onto the top of the discard pile.
    pub fn add_to_discard_pile(&mut self, card: Card)
        ensures
            final(self).spec_discard() == old(self).spec_discard().push(card),
            final(self).spec_stock() == old(self).spec_stock(),
            final(self).spec_config() == old(self).spec_config(),
    {
        self.discard_pile.push(card);
    }

    /// Reset the stock by moving the discard pile into it and shuffling.
    pub fn shuffle_discarded(&mut self)
        ensures
            final(self).spec_stock().to_multiset() == (old(self).spec_stock()
                + old(self).spec_discard()).to_multiset(),
            final(self).spec_stock().len() == old(self).spec_stock().len()
                + old(self).spec_discard().len(),
            final(self).spec_discard() == Seq::<Card>::empty(),
            final(self).spec_config() == old(self).spec_config(),
    {
        let mut pile = Vec::new();
        std::mem::swap(&mut pile, &mut self.discard_pile);
        self.stock.append(&mut pile);
        shuffle_cards_random(&mut self.stock);
    }

    /// Reset the stock by moving the discard pile onto it and turning the
    /// whole pile over (deterministic, no shuffle).
    pub fn turnover_discarded(&mut self)
        ensures
            final(self).spec_stock() == (old(self).spec_stock()
                + old(self).spec_discard()).reverse(),
            final(self).spec_discard() == Seq::<Card>::empty(),
            final(self).spec_config() == old(self).spec_config(),
    {
        let ghost combined_spec = self.stock@ + self.discard_pile@;
        let mut combined = Vec::new();
        std::mem::swap(&mut combined, &mut self.stock);
        let mut pile = Vec::new();
        std::mem::swap(&mut pile, &mut self.discard_pile);
        combined.append(&mut pile);
        assert(combined@ == combined_spec);
        while combined.len() > 0
            invariant
                combined@.len() <= combined_spec.len(),
                combined@ == combined_spec.take(combined@.len() as int),
                self.spec_stock() == combined_spec.skip(combined@.len() as int).reverse(),
                self.spec_discard() == Seq::<Card>::empty(),
                self.spec_config() == old(self).spec_config(),
            decreases combined@.len(),
        {
            let ghost n = combined@.len() as int;
            let c = combined.pop().unwrap();
            self.stock.push(c);
            proof {
                assert(c == combined_spec[n - 1]);
                assert(combined_spec.skip(n - 1).reverse() =~= combined_spec.skip(n).reverse().push(
                    combined_spec[n - 1],
                ));
            }
        }
        proof {
            assert(combined_spec.skip(0) =~= combined_spec);
        }
    }

    /// Get a reference to the deck configuration.
    pub fn config(&self) -> (c: &DeckConfig)
        ensures
            *c == self.spec_config(),
    {
        &self.config
    }

    /// Get a reference to the deck stock.
    pub fn stock(&self) -> (s: &Vec<Card>)
        ensures
            s@ == self.spec_stock(),
    {
        &self.stock
    }

    /// Get a reference to the deck discard pile.
    pub fn discard_pile(&self) -> (s: &Vec<Card>)
        ensures
            s@ == self.spec_discard(),
    {
        &self.discard_pile
    }

    /// Generates the cards of a fresh stock into `stock`, in generation
    /// order: one pass per pack over every rank and suit excluding Jokers,
    /// then 2 Jokers per pack if the Joker is the wildcard rank.
    fn generate_cards(stock: &mut Vec<Card>, config: &DeckConfig)
        requires
            old(stock)@.len() == 0,
            config.pack_count >= 1,
            config.pack_count <= usize::MAX / 54,
        ensures
            final(stock)@ == generated_seq(*config),
    {
        let block: usize = match config.wildcard_rank {
            Some(Rank::Joker) => 54,
            _ => 52,
        };
        let total = config.pack_count * block;
        let mut k: usize = 0;
        while k < total
            invariant
                stock@.len() == k,
                k <= total,
                total == config.pack_count * pack_block_size(*config),
                block == pack_block_size(*config),
                forall|i: int| 0 <= i < k ==> stock@[i] == generated_card(*config, i),
            decreases total - k,
        {
            let off = k % block;
            let card = if off < 52 {
                Card {
                    rank: Rank::from_number((off / 4 + 1) as u8),
                    suit: Suit::from_number((off % 4 + 1) as u8),
                    deck_config: *config,
                }
            } else {
                Card { rank: Rank::Joker, suit: Suit::Joker, deck_config: *config }
            };
            stock.push(card);
            k = k + 1;
        }
        proof {
            assert(stock@ =~= generated_seq(*config));
        }
    }

    /// Shuffles the cards of a `stock` based on `config`: not at all for
    /// seed `Some(0)`, deterministically for any other seed, randomly for
    /// `None`.
    fn shuffle_cards(stock: &mut Vec<Card>, config: &DeckConfig)
        ensures
            final(stock)@.to_multiset() == old(stock)@.to_multiset(),
            final(stock)@.len() == old(stock)@.len(),
            config.shuffle_seed == Option::Some(0u64) ==> final(stock)@ == old(stock)@,
            config.shuffle_seed matches Some(s) ==> (s == 0 || final(stock)@
                == seeded_shuffle_of(old(stock)@, s)),
    {
        match config.shuffle_seed {
            Some(seed) => {
                if seed != 0 {
                    shuffle_cards_seeded(stock, seed);
                }
            },
            None => shuffle_cards_random(stock),
        }
    }
}

/// In a one-pack deck with no high-rank override and no Joker wildcards,
/// the generated stock is strictly ascending by card value: the card at
/// position `i` has value `5 + i`.
pub proof fn lemma_generated_stock_ascending(config: DeckConfig)
    requires
        config.pack_count == 1,
        config.high_rank is None,
        config.wildcard_rank != Option::Some(Rank::Joker),
    ensures
        generated_seq(config).len() == 52,
        forall|i: int|
            0 <= i < 52 ==> (#[trigger] generated_seq(config)[i]).spec_value() == 5 + i,
        forall|i: int, j: int|
            0 <= i < j < generated_seq(config).len() ==> generated_seq(config)[i].spec_value()
                < generated_seq(config)[j].spec_value(),
{
    assert(pack_block_size(config) == 52);
    assert forall|i: int| 0 <= i < 52 implies (#[trigger] generated_seq(config)[i]).spec_value()
        == 5 + i by {
        let c = generated_card(config, i);
        assert(i % 52 == i);
        let off = i;
        let r = 1 + off / 4;
        let s = 1 + off % 4;
        assert(1 <= r <= 13);
        assert(1 <= s <= 4);
        assert(rank_number(rank_at(r)) == r);
        assert(suit_number(suit_at(s)) == s);
        assert(rank_at(r) != Rank::Joker);
        assert(suit_at(s) != Suit::Joker);
        assert(c.spec_value() == 4 * ((r + 13 - 13) % 14) + s);
        assert((r + 0) % 14 == r);
        assert(c.spec_value() == 4 * r + s);
        vstd::arithmetic::div_mod::lemma_fundamental_div_mod(off, 4);
        assert(4 * (off / 4) + off % 4 == off);
        assert(c.spec_value() == 5 + i);
    }
}


/// Turning over a stock that ascends strictly by value leaves it
/// descending strictly: the deterministic replenishment keeps the order,
/// reversed.
pub proof fn lemma_turnover_descending(s: Seq<Card>)
    requires
        forall|i: int, j: int|
            0 <= i < j < s.len() ==> (#[trigger] s[i]).spec_value() < (
            #[trigger] s[j]).spec_value(),
    ensures
        forall|i: int, j: int|
            0 <= i < j < s.len() ==> (#[trigger] s.reverse()[i]).spec_value() > (
            #[trigger] s.reverse()[j]).spec_value(),
{
    assert forall|i: int, j: int|
        0 <= i < j < s.len() implies (#[trigger] s.reverse()[i]).spec_value() > (
    #[trigger] s.reverse()[j]).spec_value() by {
        assert(s.reverse()[i] == s[s.len() - 1 - i]);
        assert(s.reverse()[j] == s[s.len() - 1 - j]);
    }
}

} // verus!
